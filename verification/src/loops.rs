//! Natural loops, induction variables and trip counts.
use vstd::prelude::*;

use crate::cfg;
use crate::cfg::{reach_from, ControlFlowGraph, Dominators};
use crate::edit;
use crate::ir::{
    BinaryOp, BlockId, CompareOp, FuncView, Function, InstKind, KindView, Terminator, Type, ValueId,
    ValueKindView,
};
use crate::util;
use crate::util::{const_i32, defining_block, defining_inst, phi_incoming};

verus! {

// ---------------------------------------------------------------------------
// Mathematical model
// ---------------------------------------------------------------------------

/// The ids of `n` blocks, in ascending order.
pub open spec fn all_ids(n: nat) -> Seq<BlockId> {
    Seq::new(n, |i: int| BlockId(i as usize))
}

pub open spec fn dominated_by(f: FuncView, header: BlockId) -> spec_fn(BlockId) -> bool {
    |b: BlockId| cfg::dominates(f, header, b)
}

/// The sources of the back edges to `header`.
pub open spec fn latches(f: FuncView, header: BlockId) -> Seq<BlockId> {
    cfg::preds(f, header).filter(dominated_by(f, header))
}

/// `b` is the header, or it reaches a back edge without visiting the header.
pub open spec fn in_loop(f: FuncView, header: BlockId, b: BlockId) -> bool {
    b == header || exists|latch: BlockId|
        latches(f, header).contains(latch) && #[trigger] cfg::reaches(
            cfg::pred_lists(f),
            latch,
            b,
            Some(header),
        )
}

pub open spec fn member_of(f: FuncView, header: BlockId) -> spec_fn(BlockId) -> bool {
    |b: BlockId| in_loop(f, header, b)
}

pub open spec fn outside_of(f: FuncView, header: BlockId) -> spec_fn(BlockId) -> bool {
    |b: BlockId| !in_loop(f, header, b)
}

/// The blocks of the loop, in ascending order.
pub open spec fn loop_blocks(f: FuncView, header: BlockId) -> Seq<BlockId> {
    all_ids(f.blocks.len()).filter(member_of(f, header))
}

/// The predecessors of the header outside the loop.
pub open spec fn entering(f: FuncView, header: BlockId) -> Seq<BlockId> {
    cfg::preds(f, header).filter(outside_of(f, header))
}

/// The edges from one block to blocks outside the loop.
pub open spec fn exits_of(f: FuncView, header: BlockId, b: BlockId) -> Seq<(BlockId, BlockId)> {
    cfg::succ_list(f.terminator(b)).filter(outside_of(f, header)).map_values(
        |target: BlockId| (b, target),
    )
}

/// The edges that leave the loop from its first `k` blocks.
pub open spec fn exits_upto(f: FuncView, header: BlockId, k: int) -> Seq<(BlockId, BlockId)>
    decreases k,
{
    if k <= 0 {
        Seq::empty()
    } else {
        exits_upto(f, header, k - 1) + exits_of(f, header, loop_blocks(f, header)[k - 1])
    }
}

pub open spec fn the_only(list: Seq<BlockId>) -> Option<BlockId> {
    if list.len() == 1 {
        Some(list[0])
    } else {
        None
    }
}

/// The only entering predecessor, if it leads nowhere else.
pub open spec fn dedicated(f: FuncView, header: BlockId) -> Option<BlockId> {
    match the_only(entering(f, header)) {
        Some(p) => if cfg::succ_list(f.terminator(p)).len() == 1 {
            Some(p)
        } else {
            None
        },
        None => None,
    }
}

pub struct LoopView {
    pub header: BlockId,
    pub blocks: Seq<BlockId>,
    pub latches: Seq<BlockId>,
    pub unique_entering_pred: Option<BlockId>,
    pub dedicated_preheader: Option<BlockId>,
    pub exit_edges: Seq<(BlockId, BlockId)>,
}

/// The natural loop with the given header.
pub open spec fn loop_at(f: FuncView, header: BlockId) -> LoopView {
    LoopView {
        header,
        blocks: loop_blocks(f, header),
        latches: latches(f, header),
        unique_entering_pred: the_only(entering(f, header)),
        dedicated_preheader: dedicated(f, header),
        exit_edges: exits_upto(f, header, loop_blocks(f, header).len() as int),
    }
}

pub open spec fn has_back_edge(f: FuncView) -> spec_fn(BlockId) -> bool {
    |b: BlockId| latches(f, b).len() > 0
}

pub open spec fn loop_headers(f: FuncView) -> Seq<BlockId> {
    all_ids(f.blocks.len()).filter(has_back_edge(f))
}

/// All natural loops, by ascending header.
pub open spec fn loops_of(f: FuncView) -> Seq<LoopView> {
    loop_headers(f).map_values(|h: BlockId| loop_at(f, h))
}

impl LoopView {
    pub open spec fn unique_latch(self) -> Option<BlockId> {
        the_only(self.latches)
    }

    pub open spec fn unique_exit(self) -> Option<BlockId> {
        if self.exit_edges.len() > 0 && (forall|k: int|
            0 <= k < self.exit_edges.len() ==> (#[trigger] self.exit_edges[k]).1
                == self.exit_edges[0].1) {
            Some(self.exit_edges[0].1)
        } else {
            None
        }
    }

    pub open spec fn has(self, b: BlockId) -> bool {
        self.blocks.contains(b)
    }

    /// All ids of the loop name blocks.
    pub open spec fn within(self, n: nat) -> bool {
        &&& self.header.0 < n
        &&& forall|k: int| 0 <= k < self.blocks.len() ==> (#[trigger] self.blocks[k]).0 < n
        &&& forall|k: int| 0 <= k < self.latches.len() ==> (#[trigger] self.latches[k]).0 < n
        &&& (self.unique_entering_pred matches Some(p) ==> p.0 < n)
        &&& (self.dedicated_preheader matches Some(p) ==> p.0 < n)
        &&& forall|k: int|
            0 <= k < self.exit_edges.len() ==> (#[trigger] self.exit_edges[k]).0.0 < n
                && self.exit_edges[k].1.0 < n
    }
}

// ---------------------------------------------------------------------------
// Executable analysis
// ---------------------------------------------------------------------------

/// A natural loop.
#[derive(Debug)]
pub struct NaturalLoop {
    pub header: BlockId,
    pub blocks: Vec<BlockId>,
    pub latches: Vec<BlockId>,
    pub unique_entering_pred: Option<BlockId>,
    pub dedicated_preheader: Option<BlockId>,
    pub exit_edges: Vec<(BlockId, BlockId)>,
}

impl View for NaturalLoop {
    type V = LoopView;

    open spec fn view(&self) -> LoopView {
        LoopView {
            header: self.header,
            blocks: self.blocks@,
            latches: self.latches@,
            unique_entering_pred: self.unique_entering_pred,
            dedicated_preheader: self.dedicated_preheader,
            exit_edges: self.exit_edges@,
        }
    }
}

fn first_if_only(list: &Vec<BlockId>) -> (r: Option<BlockId>)
    ensures
        r == the_only(list@),
{
    if list.len() == 1 {
        Some(list[0])
    } else {
        None
    }
}

impl NaturalLoop {
    /// A copy of the list of blocks.
    pub fn copied_blocks(&self) -> (r: Vec<BlockId>)
        ensures
            r@ == self@.blocks,
    {
        let mut copy: Vec<BlockId> = Vec::new();
        let n = self.blocks.len();
        for k in 0..n
            invariant
                n == self.blocks.len(),
                copy.len() == k,
                forall|j: int| 0 <= j < k ==> #[trigger] copy@[j] == self.blocks@[j],
        {
            copy.push(self.blocks[k]);
        }
        assert(copy@ =~= self.blocks@);
        copy
    }

    /// The only source of a back edge.
    pub fn unique_latch(&self) -> (r: Option<BlockId>)
        ensures
            r == self@.unique_latch(),
    {
        first_if_only(&self.latches)
    }

    /// The only block that the loop exits to.
    pub fn unique_exit(&self) -> (r: Option<BlockId>)
        ensures
            r == self@.unique_exit(),
    {
        let n = self.exit_edges.len();
        if n == 0 {
            return None;
        }
        for k in 0..n
            invariant
                n > 0,
                n == self.exit_edges.len(),
                forall|j: int|
                    0 <= j < k ==> (#[trigger] self@.exit_edges[j]).1 == self@.exit_edges[0].1,
        {
            if self.exit_edges[k].1 != self.exit_edges[0].1 {
                assert(self@.exit_edges[k as int].1 != self@.exit_edges[0].1);
                return None;
            }
        }
        Some(self.exit_edges[0].1)
    }

    /// Whether the loop holds the block.
    pub fn contains(&self, b: BlockId) -> (r: bool)
        ensures
            r == self@.has(b),
    {
        crate::verify::contains_block(&self.blocks, b)
    }

    /// Whether the loop leaves by this single edge only.
    pub fn exits_only_by(&self, from: BlockId, to: BlockId) -> (r: bool)
        ensures
            r == (self@.exit_edges == seq![(from, to)]),
    {
        if self.exit_edges.len() == 1 && self.exit_edges[0].0 == from && self.exit_edges[0].1
            == to {
            assert(self@.exit_edges =~= seq![(from, to)]);
            true
        } else {
            assert(seq![(from, to)].len() == 1 && seq![(from, to)][0] == (from, to));
            false
        }
    }
}

/// The elements of a list whose mark is `keep`.
fn select(
    list: &Vec<BlockId>,
    marks: &Vec<bool>,
    keep: bool,
    Ghost(pred): Ghost<spec_fn(BlockId) -> bool>,
) -> (r: Vec<BlockId>)
    requires
        forall|k: int|
            0 <= k < list.len() ==> (#[trigger] list@[k]).0 < marks.len() && (pred(list@[k]) <==> (
            marks@[list@[k].0 as int] == keep)),
    ensures
        r@ == list@.filter(pred),
{
    let mut r: Vec<BlockId> = Vec::new();
    let n = list.len();
    proof {
        reveal(Seq::filter);
        assert(list@.take(0).filter(pred) =~= Seq::<BlockId>::empty());
    }
    for i in 0..n
        invariant
            n == list.len(),
            forall|k: int|
                0 <= k < list.len() ==> (#[trigger] list@[k]).0 < marks.len() && (pred(list@[k])
                    <==> (marks@[list@[k].0 as int] == keep)),
            r@ == list@.take(i as int).filter(pred),
    {
        proof {
            reveal(Seq::filter);
            assert(list@.take(i + 1).drop_last() =~= list@.take(i as int));
            assert(list@.take(i + 1).last() == list@[i as int]);
        }
        if marks[list[i].0] == keep {
            r.push(list[i]);
        }
    }
    assert(list@.take(n as int) =~= list@);
    r
}

fn ids(n: usize) -> (r: Vec<BlockId>)
    ensures
        r@ == all_ids(n as nat),
{
    let mut r: Vec<BlockId> = Vec::new();
    for i in 0..n
        invariant
            r.len() == i,
            forall|j: int| 0 <= j < i ==> #[trigger] r@[j] == BlockId(j as usize),
    {
        r.push(BlockId(i));
    }
    assert(r@ =~= all_ids(n as nat));
    r
}

/// Elements of a filtered list come from the list and pass the filter.
pub proof fn lemma_filtered(list: Seq<BlockId>, pred: spec_fn(BlockId) -> bool)
    ensures
        forall|k: int|
            0 <= k < list.filter(pred).len() ==> pred(#[trigger] list.filter(pred)[k])
                && list.contains(list.filter(pred)[k]),
        forall|b: BlockId| list.contains(b) && pred(b) ==> #[trigger] list.filter(pred).contains(b),
        list.filter(pred).len() <= list.len(),
{
    list.lemma_filter_len(pred);
    assert forall|k: int| 0 <= k < list.filter(pred).len() implies pred(
        #[trigger] list.filter(pred)[k],
    ) && list.contains(list.filter(pred)[k]) by {
        list.lemma_filter_pred(pred, k);
        list.lemma_filter_contains_rev(pred, list.filter(pred)[k]);
    }
    assert forall|b: BlockId| list.contains(b) && pred(b) implies #[trigger] list.filter(
        pred,
    ).contains(b) by {
        let i = choose|i: int| 0 <= i < list.len() && list[i] == b;
        list.lemma_filter_contains(pred, i);
    }
}

/// The parts of a loop are blocks of the function.
pub proof fn lemma_loop_within(f: FuncView, header: BlockId)
    requires
        f.wf(),
        f.has_block(header),
        f.blocks.len() <= usize::MAX,
    ensures
        loop_at(f, header).within(f.blocks.len()),
        forall|b: BlockId|
            f.has_block(b) ==> (#[trigger] loop_at(f, header).has(b) <==> in_loop(f, header, b)),
{
    let n = f.blocks.len();
    let list = loop_blocks(f, header);
    lemma_filtered(all_ids(n), member_of(f, header));
    lemma_filtered(cfg::preds(f, header), dominated_by(f, header));
    lemma_filtered(cfg::preds(f, header), outside_of(f, header));
    cfg::lemma_preds_below_sorted(f, header, n as int);
    assert forall|b: BlockId| f.has_block(b) implies (#[trigger] loop_at(f, header).has(b)
        <==> in_loop(f, header, b)) by {
        assert(all_ids(n)[b.0 as int] == b);
    }
    lemma_exits_within(f, header, list.len() as int);
}

proof fn lemma_exits_within(f: FuncView, header: BlockId, k: int)
    requires
        f.wf(),
        f.has_block(header),
        f.blocks.len() <= usize::MAX,
        0 <= k <= loop_blocks(f, header).len(),
    ensures
        forall|j: int|
            0 <= j < exits_upto(f, header, k).len() ==> (#[trigger] exits_upto(
                f,
                header,
                k,
            )[j]).0.0 < f.blocks.len() && exits_upto(f, header, k)[j].1.0 < f.blocks.len(),
    decreases k,
{
    if k > 0 {
        lemma_exits_within(f, header, k - 1);
        let b = loop_blocks(f, header)[k - 1];
        lemma_filtered(all_ids(f.blocks.len()), member_of(f, header));
        assert(f.has_block(b));
        lemma_filtered(cfg::succ_list(f.terminator(b)), outside_of(f, header));
        assert(edit::block_wf(f.blocks[b.0 as int], f.blocks.len(), f.values.len()));
        let before = exits_upto(f, header, k - 1);
        let more = exits_of(f, header, b);
        let all = exits_upto(f, header, k);
        assert(all =~= before + more);
        assert forall|j: int| 0 <= j < all.len() implies (#[trigger] all[j]).0.0 < f.blocks.len()
            && all[j].1.0 < f.blocks.len() by {
            if j < before.len() {
                assert(all[j] == before[j]);
            } else {
                let i = j - before.len();
                let targets = cfg::succ_list(f.terminator(b)).filter(outside_of(f, header));
                assert(all[j] == more[i]);
                assert(more[i] == (b, targets[i]));
                assert(cfg::succ_list(f.terminator(b)).contains(targets[i]));
            }
        }
    }
}

/// Computes the natural loop with the given header.
fn build_loop(
    func: &Function,
    cfg: &ControlFlowGraph,
    header: BlockId,
    latches_of: Vec<BlockId>,
) -> (r: NaturalLoop)
    requires
        func@.wf(),
        cfg.of(func@),
        func@.has_block(header),
        latches_of@ == latches(func@, header),
    ensures
        r@ == loop_at(func@, header),
{
    let ghost f = func@;
    let n = func.blocks.len();
    proof {
        cfg::lemma_graph_wf(f);
        lemma_loop_within(f, header);
        assert(cfg::lists_view(cfg.preds@).len() == n);
        assert(cfg::lists_view(cfg.succs@).len() == n);
    }
    let mut marks: Vec<bool> = Vec::new();
    for i in 0..n
        invariant
            marks.len() == i,
            forall|j: int| 0 <= j < i ==> #[trigger] marks@[j] == (j == header.0),
    {
        marks.push(i == header.0);
    }
    let m = latches_of.len();
    for k in 0..m
        invariant
            f == func@,
            f.wf(),
            f.has_block(header),
            n == f.blocks.len(),
            n == func.blocks.len(),
            m == latches_of.len(),
            latches_of@ == latches(f, header),
            loop_at(f, header).within(n as nat),
            cfg::lists_view(cfg.preds@) == cfg::pred_lists(f),
            cfg.preds@.len() == n,
            cfg::graph_wf(cfg::pred_lists(f)),
            marks.len() == n,
            forall|b: int|
                0 <= b < n ==> (#[trigger] marks@[b] <==> (b == header.0 || exists|j: int|
                    0 <= j < k && #[trigger] cfg::reaches(
                        cfg::pred_lists(f),
                        latches(f, header)[j],
                        BlockId(b as usize),
                        Some(header),
                    ))),
    {
        let latch = latches_of[k];
        assert(loop_at(f, header).latches[k as int] == latch);
        let reached = reach_from(&cfg.preds, latch, Some(header));
        let ghost marks0 = marks@;
        for b in 0..n
            invariant
                n == reached.len(),
                n == marks0.len(),
                marks.len() == n,
                forall|j: int| 0 <= j < b ==> #[trigger] marks@[j] == (marks0[j] || reached@[j]),
                forall|j: int| b <= j < n ==> #[trigger] marks@[j] == marks0[j],
        {
            if reached[b] {
                marks[b] = true;
            }
        }
        assert forall|b: int| 0 <= b < n implies (#[trigger] marks@[b] <==> (b == header.0
            || exists|j: int|
            0 <= j < k + 1 && #[trigger] cfg::reaches(
                cfg::pred_lists(f),
                latches(f, header)[j],
                BlockId(b as usize),
                Some(header),
            ))) by {
            assert(marks@[b] == (marks0[b] || reached@[b]));
            assert(reached@[b] <==> cfg::reaches(
                cfg::pred_lists(f),
                latches(f, header)[k as int],
                BlockId(b as usize),
                Some(header),
            ));
        }
    }
    proof {
        assert forall|b: int| 0 <= b < n implies (#[trigger] marks@[b] <==> in_loop(
            f,
            header,
            BlockId(b as usize),
        )) by {
            let id = BlockId(b as usize);
            if exists|j: int|
                0 <= j < m && #[trigger] cfg::reaches(
                    cfg::pred_lists(f),
                    latches(f, header)[j],
                    id,
                    Some(header),
                ) {
                let j = choose|j: int|
                    0 <= j < m && #[trigger] cfg::reaches(
                        cfg::pred_lists(f),
                        latches(f, header)[j],
                        id,
                        Some(header),
                    );
                assert(latches(f, header).contains(latches(f, header)[j]));
            }
            if in_loop(f, header, id) && id != header {
                let latch = choose|latch: BlockId|
                    latches(f, header).contains(latch) && #[trigger] cfg::reaches(
                        cfg::pred_lists(f),
                        latch,
                        id,
                        Some(header),
                    );
                let j = choose|j: int|
                    0 <= j < latches(f, header).len() && latches(f, header)[j] == latch;
                assert(cfg::reaches(
                    cfg::pred_lists(f),
                    latches(f, header)[j],
                    id,
                    Some(header),
                ));
            }
        }
        cfg::lemma_preds_below_sorted(f, header, n as int);
        assert(cfg.preds@[header.0 as int]@ == cfg::pred_lists(f)[header.0 as int]) by {
            assert(cfg::lists_view(cfg.preds@)[header.0 as int] == cfg.preds@[header.0 as int]@);
        }
    }
    let every = ids(n);
    let blocks = select(&every, &marks, true, Ghost(member_of(f, header)));
    let outer = select(&cfg.preds[header.0], &marks, false, Ghost(outside_of(f, header)));
    let unique_entering_pred = first_if_only(&outer);
    let mut dedicated_preheader: Option<BlockId> = None;
    if let Some(p) = unique_entering_pred {
        assert(loop_at(f, header).unique_entering_pred == Some(p));
        assert(cfg::lists_view(cfg.succs@)[p.0 as int] == cfg.succs@[p.0 as int]@);
        if cfg.succs[p.0].len() == 1 {
            dedicated_preheader = Some(p);
        }
    }
    let mut exit_edges: Vec<(BlockId, BlockId)> = Vec::new();
    let count = blocks.len();
    for k in 0..count
        invariant
            f == func@,
            f.wf(),
            f.has_block(header),
            n == f.blocks.len(),
            n == func.blocks.len(),
            loop_at(f, header).within(n as nat),
            cfg::lists_view(cfg.succs@) == cfg::succ_lists(f),
            cfg.succs@.len() == n,
            cfg::graph_wf(cfg::succ_lists(f)),
            marks.len() == n,
            count == blocks.len(),
            blocks@ == loop_blocks(f, header),
            forall|b: int|
                0 <= b < n ==> (#[trigger] marks@[b] <==> in_loop(
                    f,
                    header,
                    BlockId(b as usize),
                )),
            exit_edges@ == exits_upto(f, header, k as int),
    {
        let b = blocks[k];
        assert(loop_at(f, header).blocks[k as int] == b);
        assert(cfg.succs@[b.0 as int]@ == cfg::succ_lists(f)[b.0 as int]) by {
            assert(cfg::lists_view(cfg.succs@)[b.0 as int] == cfg.succs@[b.0 as int]@);
        }
        assert forall|i: int| 0 <= i < cfg.succs@[b.0 as int].len() implies (
        #[trigger] cfg.succs@[b.0 as int]@[i]).0 < marks.len() by {
            assert(cfg::succ_lists(f)[b.0 as int][i].0 < n);
        }
        let targets = select(&cfg.succs[b.0], &marks, false, Ghost(outside_of(f, header)));
        let ghost before = exit_edges@;
        let more = targets.len();
        for i in 0..more
            invariant
                more == targets.len(),
                exit_edges@ == before + targets@.take(i as int).map_values(
                    |target: BlockId| (b, target),
                ),
        {
            exit_edges.push((b, targets[i]));
            assert(exit_edges@ =~= before + targets@.take(i + 1).map_values(
                |target: BlockId| (b, target),
            ));
        }
        assert(targets@.take(more as int) =~= targets@);
        assert(exit_edges@ =~= exits_upto(f, header, k + 1));
    }
    NaturalLoop {
        header,
        blocks,
        latches: latches_of,
        unique_entering_pred,
        dedicated_preheader,
        exit_edges,
    }
}

pub open spec fn loops_view(loops: Seq<NaturalLoop>) -> Seq<LoopView> {
    loops.map_values(|l: NaturalLoop| l@)
}

/// The natural loops of a function, by ascending header.
pub struct LoopInfo {
    pub all: Vec<NaturalLoop>,
}

impl LoopInfo {
    /// These are the loops of `f`.
    pub open spec fn of(self, f: FuncView) -> bool {
        loops_view(self.all@) == loops_of(f)
    }

    /// Finds the natural loops.
    pub fn new(func: &Function, cfg: &ControlFlowGraph, dom: &Dominators) -> (r: Self)
        requires
            func@.wf(),
            cfg.of(func@),
            dom.of(func@),
        ensures
            r.of(func@),
    {
        let ghost f = func@;
        let n = func.blocks.len();
        let mut all: Vec<NaturalLoop> = Vec::new();
        proof {
            reveal(Seq::filter);
            assert(all_ids(n as nat).take(0).filter(has_back_edge(f)) =~= Seq::<BlockId>::empty());
            assert(cfg::lists_view(cfg.preds@).len() == n);
        }
        for h in 0..n
            invariant
                f == func@,
                f.wf(),
                n == f.blocks.len(),
                n == func.blocks.len(),
                cfg.of(f),
                dom.of(f),
                cfg.preds@.len() == n,
                loops_view(all@) == all_ids(n as nat).take(h as int).filter(
                    has_back_edge(f),
                ).map_values(|x: BlockId| loop_at(f, x)),
        {
            let header = BlockId(h);
            let ghost headers = all_ids(n as nat);
            proof {
                cfg::lemma_preds_below_sorted(f, header, n as int);
                assert(cfg.preds@[h as int]@ == cfg::pred_lists(f)[h as int]) by {
                    assert(cfg::lists_view(cfg.preds@)[h as int] == cfg.preds@[h as int]@);
                }
                assert forall|i: int| 0 <= i < cfg.preds@[h as int].len() implies (
                #[trigger] cfg.preds@[h as int]@[i]).0 < dom.table@[h as int].len() && (
                dominated_by(f, header)(cfg.preds@[h as int]@[i]) <==> (dom.table@[h as int]@[
                    cfg.preds@[h as int]@[i].0 as int] == true)) by {
                    let p = cfg.preds@[h as int]@[i];
                    assert(cfg::preds(f, header)[i] == p);
                    assert(dom.table@[h as int]@[p.0 as int] <==> cfg::dominates(f, header, p));
                }
            }
            let back = select(
                &cfg.preds[h],
                &dom.table[h],
                true,
                Ghost(dominated_by(f, header)),
            );
            proof {
                reveal(Seq::filter);
                assert(headers.take(h + 1).drop_last() =~= headers.take(h as int));
                assert(headers.take(h + 1).last() == header);
            }
            let ghost shorter = headers.take(h as int).filter(has_back_edge(f));
            let ghost before = loops_view(all@);
            if back.len() > 0 {
                all.push(build_loop(func, cfg, header, back));
                assert(loops_view(all@) =~= before.push(loop_at(f, header)));
                assert(shorter.push(header).map_values(|x: BlockId| loop_at(f, x))
                    =~= shorter.map_values(|x: BlockId| loop_at(f, x)).push(loop_at(f, header)));
            }
        }
        assert(all_ids(n as nat).take(n as int) =~= all_ids(n as nat));
        LoopInfo { all }
    }

    /// The loops.
    pub fn loops(&self) -> (r: &Vec<NaturalLoop>)
        ensures
            *r == self.all,
    {
        &self.all
    }
}

/// Every loop that is listed is the loop of its header and lies within the
/// function.
pub proof fn lemma_listed_loop(f: FuncView, k: int)
    requires
        f.wf(),
        f.blocks.len() <= usize::MAX,
        0 <= k < loops_of(f).len(),
    ensures
        loops_of(f)[k] == loop_at(f, loops_of(f)[k].header),
        f.has_block(loops_of(f)[k].header),
        loops_of(f)[k].within(f.blocks.len()),
{
    lemma_filtered(all_ids(f.blocks.len()), has_back_edge(f));
    let h = loop_headers(f)[k];
    assert(f.has_block(h));
    lemma_loop_within(f, h);
}

// ---------------------------------------------------------------------------
// Induction variables
// ---------------------------------------------------------------------------

/// A loop counter: a phi of the header that starts at `initial` and is
/// `next = phi + step` along the back edge.
#[derive(Clone, Copy, PartialEq, Eq, Structural, Debug)]
pub struct InductionVariable {
    pub phi: ValueId,
    pub initial: ValueId,
    pub next: ValueId,
    pub step: i32,
}

/// The constant by which the operation changes `base`.
pub open spec fn step_of(f: FuncView, kind: KindView, base: ValueId) -> Option<i32> {
    match kind {
        KindView::Binary { op: BinaryOp::Iadd, lhs, rhs } => if lhs == base {
            util::const_i32_of(f, rhs)
        } else if rhs == base {
            util::const_i32_of(f, lhs)
        } else {
            None
        },
        KindView::Binary { op: BinaryOp::Isub, lhs, rhs } => if lhs == base {
            match util::const_i32_of(f, rhs) {
                Some(c) => if c == i32::MIN {
                    None
                } else {
                    Some((-c) as i32)
                },
                None => None,
            }
        } else {
            None
        },
        _ => None,
    }
}

/// The induction variable of loop `l` whose phi is `phi`.
pub open spec fn induction_of(f: FuncView, l: LoopView, phi: ValueId) -> Option<InductionVariable> {
    match (l.unique_entering_pred, l.unique_latch()) {
        (Some(entry), Some(latch)) => if util::def_block(f, phi) == Some(l.header) && f.value(
            phi,
        ).ty == Type::I32 {
            match (util::phi_incoming_of(f, phi, entry), util::phi_incoming_of(f, phi, latch)) {
                (Some(initial), Some(next)) => match util::def_kind(f, next) {
                    Some(kind) => match step_of(f, kind, phi) {
                        Some(step) => if step != 0 {
                            Some(InductionVariable { phi, initial, next, step })
                        } else {
                            None
                        },
                        None => None,
                    },
                    None => None,
                },
                _ => None,
            }
        } else {
            None
        },
        _ => None,
    }
}

fn find_step(func: &Function, kind: &InstKind, base: ValueId) -> (r: Option<i32>)
    ensures
        r == step_of(func@, kind@, base),
{
    match kind {
        InstKind::Binary { op: BinaryOp::Iadd, lhs, rhs } => if *lhs == base {
            const_i32(func, *rhs)
        } else if *rhs == base {
            const_i32(func, *lhs)
        } else {
            None
        },
        InstKind::Binary { op: BinaryOp::Isub, lhs, rhs } => if *lhs == base {
            match const_i32(func, *rhs) {
                Some(c) => if c == i32::MIN {
                    None
                } else {
                    Some(-c)
                },
                None => None,
            }
        } else {
            None
        },
        _ => None,
    }
}

/// Recognizes the induction variable of a loop whose phi is given.
pub fn analyze_i32_induction(func: &Function, natural_loop: &NaturalLoop, phi: ValueId) -> (r:
    Option<InductionVariable>)
    ensures
        r == induction_of(func@, natural_loop@, phi),
{
    let entry = natural_loop.unique_entering_pred?;
    let latch = natural_loop.unique_latch()?;
    let owner = defining_block(func, phi)?;
    if owner != natural_loop.header || !func.values[phi.0].ty.same(&Type::I32) {
        return None;
    }
    let initial = phi_incoming(func, phi, entry)?;
    let next = phi_incoming(func, phi, latch)?;
    let kind = defining_inst(func, next)?;
    let step = find_step(func, kind, phi)?;
    if step == 0 {
        return None;
    }
    Some(InductionVariable { phi, initial, next, step })
}

/// An induction variable names values of the function.
pub proof fn lemma_induction_wf(f: FuncView, l: LoopView, phi: ValueId)
    requires
        f.wf(),
        induction_of(f, l, phi) is Some,
    ensures
        induction_of(f, l, phi)->0.phi == phi,
        f.has_value(phi),
        f.has_value(induction_of(f, l, phi)->0.initial),
        f.has_value(induction_of(f, l, phi)->0.next),
        util::def_block(f, phi) == Some(l.header),
{
    lemma_phi_incoming_wf(f, phi, l.unique_entering_pred->0);
    lemma_phi_incoming_wf(f, phi, l.unique_latch()->0);
}

/// What a phi of a well-formed function takes is a value of the function.
pub proof fn lemma_phi_incoming_wf(f: FuncView, phi: ValueId, pred: BlockId)
    requires
        f.wf(),
    ensures
        util::phi_incoming_of(f, phi, pred) matches Some(v) ==> f.has_value(v),
{
    if let Some(KindView::Phi { incomings }) = util::def_kind(f, phi) {
        lemma_def_kind_wf(f, phi);
        lemma_incoming_in_range(incomings, pred, f.blocks.len(), f.values.len());
    }
}

pub proof fn lemma_incoming_in_range(
    incomings: Seq<(BlockId, ValueId)>,
    pred: BlockId,
    nb: nat,
    nv: nat,
)
    requires
        edit::incomings_wf(incomings, nb, nv),
    ensures
        util::incoming_from(incomings, pred) matches Some(v) ==> v.0 < nv,
    decreases incomings.len(),
{
    if incomings.len() > 0 {
        let rest = incomings.drop_first();
        assert forall|k: int| 0 <= k < rest.len() implies (#[trigger] rest[k]).0.0 < nb
            && rest[k].1.0 < nv by {
            assert(rest[k] == incomings[k + 1]);
        }
        lemma_incoming_in_range(rest, pred, nb, nv);
    }
}

/// The operation that defines a value of a well-formed function is well
/// formed.
pub proof fn lemma_def_kind_wf(f: FuncView, v: ValueId)
    requires
        f.wf(),
    ensures
        util::def_kind(f, v) matches Some(kind) ==> edit::kind_wf(
            kind,
            f.blocks.len(),
            f.values.len(),
        ),
{
    if let Some(kind) = util::def_kind(f, v) {
        if let ValueKindView::Inst(b, i) = f.value(v).kind {
            assert(edit::block_wf(f.blocks[b.0 as int], f.blocks.len(), f.values.len()));
            assert(edit::inst_wf(
                f.blocks[b.0 as int].insts[i as int],
                f.blocks.len(),
                f.values.len(),
            ));
        }
    }
}

// ---------------------------------------------------------------------------
// Constant trip counts
// ---------------------------------------------------------------------------

/// How often a counter that starts at `initial` and moves by `step` passes the
/// test against `bound`, as long as it does not leave the 32-bit range.
pub open spec fn trips(op: CompareOp, initial: int, step: int, bound: int) -> Option<int> {
    match op {
        CompareOp::Lt => if step <= 0 {
            None
        } else if initial >= bound {
            Some(0)
        } else {
            Some((bound - initial + step - 1) / step)
        },
        CompareOp::Le => if step <= 0 {
            None
        } else if initial > bound {
            Some(0)
        } else {
            Some((bound - initial) / step + 1)
        },
        CompareOp::Gt => if step >= 0 {
            None
        } else if initial <= bound {
            Some(0)
        } else {
            Some((initial - bound - step - 1) / (-step))
        },
        CompareOp::Ge => if step >= 0 {
            None
        } else if initial < bound {
            Some(0)
        } else {
            Some((initial - bound) / (-step) + 1)
        },
        _ => None,
    }
}

/// The constant trip count of a loop that is tested in its header.
pub open spec fn trip_count_of(f: FuncView, l: LoopView, iv: InductionVariable) -> Option<u32> {
    match f.terminator(l.header) {
        Some(Terminator::Branch { cond, then_target, else_target }) => if l.has(then_target)
            && !l.has(else_target) {
            match util::def_kind(f, cond) {
                Some(KindView::ICompare { op, lhs, rhs }) => if lhs == iv.phi {
                    match (util::const_i32_of(f, iv.initial), util::const_i32_of(f, rhs)) {
                        (Some(initial), Some(bound)) => match trips(
                            op,
                            initial as int,
                            iv.step as int,
                            bound as int,
                        ) {
                            Some(count) => if i32::MIN <= initial + count * iv.step <= i32::MAX {
                                Some(count as u32)
                            } else {
                                None
                            },
                            None => None,
                        },
                        _ => None,
                    }
                } else {
                    None
                },
                _ => None,
            }
        } else {
            None
        },
        _ => None,
    }
}

/// Counts the passes of a counting test.
fn count_trips(op: CompareOp, initial: i32, step: i32, bound: i32) -> (r: Option<i64>)
    ensures
        match r {
            Some(count) => trips(op, initial as int, step as int, bound as int) == Some(
                count as int,
            ) && 0 <= count <= 0x1_0000_0000,
            None => trips(op, initial as int, step as int, bound as int) is None,
        },
{
    let (i, s, b) = (initial as i64, step as i64, bound as i64);
    match op {
        CompareOp::Lt => if s <= 0 {
            None
        } else if i >= b {
            Some(0)
        } else {
            proof {
                lemma_quotient_bound(b - i + s - 1, s as int, 0xffff_ffff);
            }
            Some((b - i + s - 1) / s)
        },
        CompareOp::Le => if s <= 0 {
            None
        } else if i > b {
            Some(0)
        } else {
            proof {
                lemma_quotient_bound(b - i, s as int, 0xffff_ffff);
            }
            Some((b - i) / s + 1)
        },
        CompareOp::Gt => if s >= 0 {
            None
        } else if i <= b {
            Some(0)
        } else {
            proof {
                lemma_quotient_bound(i - b - s - 1, -s as int, 0xffff_ffff);
            }
            Some((i - b - s - 1) / (-s))
        },
        CompareOp::Ge => if s >= 0 {
            None
        } else if i < b {
            Some(0)
        } else {
            proof {
                lemma_quotient_bound(i - b, -s as int, 0xffff_ffff);
            }
            Some((i - b) / (-s) + 1)
        },
        _ => None,
    }
}

proof fn lemma_product_bound(a: int, b: int)
    by (nonlinear_arith)
    requires
        0 <= a <= 0x1_0000_0000,
        -0x8000_0000 <= b <= 0x8000_0000,
    ensures
        -0x8000_0000_0000_0000 <= a * b <= 0x8000_0000_0000_0000,
{
}

proof fn lemma_quotient_bound(a: int, d: int, m: int)
    requires
        d >= 1,
        0 <= a,
        a - d + 1 <= m,
        m >= 0,
    ensures
        0 <= a / d <= m,
{
    assert(0 <= a / d <= m) by (nonlinear_arith)
        requires
            d >= 1,
            0 <= a,
            a - d + 1 <= m,
            m >= 0,
    ;
}

/// The constant trip count of a loop that is tested in its header.
pub fn analyze_const_i32_trip_count(
    func: &Function,
    natural_loop: &NaturalLoop,
    induction: InductionVariable,
) -> (r: Option<u32>)
    requires
        func@.has_block(natural_loop.header),
    ensures
        r == trip_count_of(func@, natural_loop@, induction),
{
    match func.blocks[natural_loop.header.0].terminator {
        Some(Terminator::Branch { cond, then_target, else_target }) => {
            if !natural_loop.contains(then_target) || natural_loop.contains(else_target) {
                return None;
            }
            match defining_inst(func, cond) {
                Some(InstKind::ICompare { op, lhs, rhs }) => {
                    if *lhs != induction.phi {
                        return None;
                    }
                    let initial = const_i32(func, induction.initial)?;
                    let bound = const_i32(func, *rhs)?;
                    let count = count_trips(*op, initial, induction.step, bound)?;
                    proof {
                        lemma_product_bound(count as int, induction.step as int);
                    }
                    let last = initial as i128 + (count as i128) * (induction.step as i128);
                    if last < i32::MIN as i128 || last > i32::MAX as i128 {
                        return None;
                    }
                    Some(count as u32)
                },
                _ => None,
            }
        },
        _ => None,
    }
}

// ---------------------------------------------------------------------------
// Order
// ---------------------------------------------------------------------------

/// A loop of size `a` goes in front of one of size `b`.
pub open spec fn goes_first(ascending: bool, a: nat, b: nat) -> bool {
    if ascending {
        a < b
    } else {
        b < a
    }
}

/// The first place, from `p` on, whose loop loop `k` goes in front of.
pub open spec fn slot(
    loops: Seq<LoopView>,
    ascending: bool,
    order: Seq<usize>,
    k: int,
    p: int,
) -> int
    decreases order.len() - p,
{
    if p < 0 || p >= order.len() || goes_first(
        ascending,
        loops[k].blocks.len(),
        loops[order[p] as int].blocks.len(),
    ) {
        p
    } else {
        slot(loops, ascending, order, k, p + 1)
    }
}

/// The first `n` loops by size; loops of one size keep their order.
pub open spec fn size_order_below(loops: Seq<LoopView>, ascending: bool, n: int) -> Seq<usize>
    decreases n,
{
    if n <= 0 {
        Seq::empty()
    } else {
        let before = size_order_below(loops, ascending, n - 1);
        before.insert(slot(loops, ascending, before, n - 1, 0), (n - 1) as usize)
    }
}

/// The positions of the loops by size; loops of one size keep their order.
pub open spec fn size_order(loops: Seq<LoopView>, ascending: bool) -> Seq<usize> {
    size_order_below(loops, ascending, loops.len() as int)
}

fn precedes(ascending: bool, a: usize, b: usize) -> (r: bool)
    ensures
        r == goes_first(ascending, a as nat, b as nat),
{
    if ascending {
        a < b
    } else {
        b < a
    }
}

/// Orders loops by size.
pub fn order_by_size(loops: &Vec<NaturalLoop>, ascending: bool) -> (r: Vec<usize>)
    ensures
        r@ == size_order(loops_view(loops@), ascending),
        r.len() == loops.len(),
        forall|k: int| 0 <= k < r.len() ==> #[trigger] r@[k] < loops.len(),
{
    let ghost view = loops_view(loops@);
    let n = loops.len();
    let mut order: Vec<usize> = Vec::new();
    for k in 0..n
        invariant
            n == loops.len(),
            view == loops_view(loops@),
            view.len() == n,
            order@ == size_order_below(view, ascending, k as int),
            order.len() == k,
            forall|j: int| 0 <= j < order.len() ==> #[trigger] order@[j] < k,
    {
        let mut p: usize = 0;
        assert(view[k as int] == loops@[k as int]@);
        while p < order.len() && !precedes(
            ascending,
            loops[k].blocks.len(),
            loops[order[p]].blocks.len(),
        )
            invariant
                n == loops.len(),
                k < n,
                view == loops_view(loops@),
                view.len() == n,
                view[k as int] == loops@[k as int]@,
                p <= order.len(),
                order.len() == k,
                forall|j: int| 0 <= j < order.len() ==> #[trigger] order@[j] < k,
                slot(view, ascending, order@, k as int, 0) == slot(
                    view,
                    ascending,
                    order@,
                    k as int,
                    p as int,
                ),
            decreases order.len() - p,
        {
            assert(view[order@[p as int] as int] == loops@[order@[p as int] as int]@);
            p = p + 1;
        }
        if p < order.len() {
            assert(view[order@[p as int] as int] == loops@[order@[p as int] as int]@);
        }
        let ghost before = order@;
        order.insert(p, k);
        assert forall|j: int| 0 <= j < order.len() implies #[trigger] order@[j] < k + 1 by {
            if j < p {
                assert(order@[j] == before[j]);
            } else if j > p {
                assert(order@[j] == before[j - 1]);
            }
        }
    }
    order
}

/// The ids of all blocks.
pub fn all_block_ids(n: usize) -> (r: Vec<BlockId>)
    ensures
        r@ == all_ids(n as nat),
{
    let mut r: Vec<BlockId> = Vec::new();
    for b in 0..n
        invariant
            r.len() == b,
            forall|j: int| 0 <= j < b ==> #[trigger] r@[j] == BlockId(j as usize),
    {
        r.push(BlockId(b));
    }
    assert(r@ =~= all_ids(n as nat));
    r
}

// ---------------------------------------------------------------------------
// Nesting
// ---------------------------------------------------------------------------

/// The outer loop holds the inner one, its preheader and its exit.
pub open spec fn encloses(outer: LoopView, inner: LoopView, preheader: BlockId, exit: BlockId) -> bool {
    &&& outer.blocks.len() > inner.blocks.len()
    &&& forall|k: int| 0 <= k < inner.blocks.len() ==> outer.has(#[trigger] inner.blocks[k])
    &&& outer.has(preheader)
    &&& outer.has(exit)
}

/// The smallest enclosing loop among the first `n`; the first of them, if
/// several are as small.
pub open spec fn smallest_below(
    list: Seq<LoopView>,
    inner: LoopView,
    preheader: BlockId,
    exit: BlockId,
    n: int,
) -> Option<int>
    decreases n,
{
    if n <= 0 {
        None
    } else {
        let best = smallest_below(list, inner, preheader, exit, n - 1);
        if encloses(list[n - 1], inner, preheader, exit) && match best {
            Some(k) => list[n - 1].blocks.len() < list[k].blocks.len(),
            None => true,
        } {
            Some(n - 1)
        } else {
            best
        }
    }
}

fn loop_encloses(outer: &NaturalLoop, inner: &NaturalLoop, preheader: BlockId, exit: BlockId) -> (r:
    bool)
    ensures
        r == encloses(outer@, inner@, preheader, exit),
{
    if outer.blocks.len() <= inner.blocks.len() || !outer.contains(preheader) || !outer.contains(
        exit,
    ) {
        return false;
    }
    let n = inner.blocks.len();
    for k in 0..n
        invariant
            n == inner.blocks.len(),
            forall|j: int| 0 <= j < k ==> outer@.has(#[trigger] inner@.blocks[j]),
    {
        if !outer.contains(inner.blocks[k]) {
            assert(!outer@.has(inner@.blocks[k as int]));
            return false;
        }
    }
    true
}

/// The smallest loop around the inner one, its preheader and its exit.
pub fn smallest_enclosing(
    list: &Vec<NaturalLoop>,
    inner: &NaturalLoop,
    preheader: BlockId,
    exit: BlockId,
) -> (r: Option<usize>)
    ensures
        match r {
            Some(k) => smallest_below(
                loops_view(list@),
                inner@,
                preheader,
                exit,
                list.len() as int,
            ) == Some(k as int) && k < list.len(),
            None => smallest_below(
                loops_view(list@),
                inner@,
                preheader,
                exit,
                list.len() as int,
            ) is None,
        },
{
    let ghost views = loops_view(list@);
    let mut best: Option<usize> = None;
    let n = list.len();
    for k in 0..n
        invariant
            n == list.len(),
            views == loops_view(list@),
            match best {
                Some(j) => smallest_below(views, inner@, preheader, exit, k as int)
                    == Some(j as int) && j < k,
                None => smallest_below(views, inner@, preheader, exit, k as int) is None,
            },
    {
        assert(views[k as int] == list@[k as int]@);
        if loop_encloses(&list[k], inner, preheader, exit) {
            let smaller = match best {
                Some(j) => {
                    assert(views[j as int] == list@[j as int]@);
                    list[k].blocks.len() < list[j].blocks.len()
                },
                None => true,
            };
            if smaller {
                best = Some(k);
            }
        }
    }
    best
}

/// The loop holds exactly the listed blocks.
pub open spec fn is_exactly(l: LoopView, list: Seq<BlockId>) -> bool {
    forall|b: BlockId| #[trigger] l.has(b) <==> list.contains(b)
}

/// Whether the loop holds exactly the listed blocks.
pub fn holds_exactly(l: &NaturalLoop, list: &Vec<BlockId>) -> (r: bool)
    ensures
        r == is_exactly(l@, list@),
{
    let n = list.len();
    for k in 0..n
        invariant
            n == list.len(),
            forall|j: int| 0 <= j < k ==> l@.has(#[trigger] list@[j]),
    {
        if !l.contains(list[k]) {
            assert(list@.contains(list@[k as int]) && !l@.has(list@[k as int]));
            return false;
        }
    }
    let m = l.blocks.len();
    for k in 0..m
        invariant
            m == l.blocks.len(),
            forall|j: int| 0 <= j < k ==> list@.contains(#[trigger] l@.blocks[j]),
    {
        if !crate::verify::contains_block(list, l.blocks[k]) {
            assert(l@.has(l@.blocks[k as int]) && !list@.contains(l@.blocks[k as int]));
            return false;
        }
    }
    true
}

} // verus!
