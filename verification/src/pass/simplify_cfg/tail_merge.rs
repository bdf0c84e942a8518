//! Tail merging: the same update at the end of two blocks that continue at the
//! same phi is computed once, in a block of its own.
use vstd::prelude::*;

use crate::cfg;
use crate::cfg::ControlFlowGraph;
use crate::edit;
use crate::ir::{
    BlockId, Const, FuncView, Function, Inst, InstKind, InstView, KindView, Terminator, ValueId,
    ValueKind, ValueKindView,
};
use crate::pass::simplify_cfg::structural;
use crate::query;
use crate::query::{
    active_insts, defining_inst_in_block, jump_target, leading_phis, preds_of, unique_incoming,
    value_use_counts,
};
use crate::verify;

verus! {

pub const MAX_TAIL_MERGE_BLOCKS: usize = 1024;

pub const MAX_TAIL_MERGE_PAIRS: usize = 32_768;

// ---------------------------------------------------------------------------
// Mathematical model
// ---------------------------------------------------------------------------

/// The two values are the same, or equal constants.
pub open spec fn same_value(f: FuncView, a: ValueId, b: ValueId) -> bool {
    a == b || match (f.value(a).kind, f.value(b).kind) {
        (ValueKindView::Const(x), ValueKindView::Const(y)) => x == y,
        _ => false,
    }
}

pub open spec fn same_values(f: FuncView, a: Seq<ValueId>, b: Seq<ValueId>) -> bool {
    a.len() == b.len() && forall|k: int| 0 <= k < a.len() ==> same_value(f, #[trigger] a[k], b[k])
}

/// The two operations compute the same from the same values.
pub open spec fn same_operation(f: FuncView, a: KindView, b: KindView) -> bool {
    match (a, b) {
        (KindView::Unary { op: p, value: x }, KindView::Unary { op: q, value: y }) => p == q
            && same_value(f, x, y),
        (
            KindView::Binary { op: p, lhs: xl, rhs: xr },
            KindView::Binary { op: q, lhs: yl, rhs: yr },
        ) => p == q && same_value(f, xl, yl) && same_value(f, xr, yr),
        (
            KindView::ICompare { op: p, lhs: xl, rhs: xr },
            KindView::ICompare { op: q, lhs: yl, rhs: yr },
        ) => p == q && same_value(f, xl, yl) && same_value(f, xr, yr),
        (
            KindView::FCompare { op: p, lhs: xl, rhs: xr },
            KindView::FCompare { op: q, lhs: yl, rhs: yr },
        ) => p == q && same_value(f, xl, yl) && same_value(f, xr, yr),
        (KindView::Cast { op: p, value: x }, KindView::Cast { op: q, value: y }) => p == q
            && same_value(f, x, y),
        (KindView::Gep { base: x, indices: i }, KindView::Gep { base: y, indices: j }) => same_value(
            f,
            x,
            y,
        ) && same_values(f, i, j),
        _ => false,
    }
}

/// The place of the definition of `v`, if it is the last operation of the
/// block.
pub open spec fn tail_place(f: FuncView, b: BlockId, v: ValueId) -> Option<usize> {
    match query::place_in(f, b, v) {
        Some(at) => if query::active(f, b).len() > 0 && query::active(f, b).last() == at && f.inst(
            b,
            at as int,
        ).result == Some(v) {
            Some(at)
        } else {
            None
        },
        None => None,
    }
}

/// The blocks that always continue at `h`.
pub open spec fn jumps_to(f: FuncView, h: BlockId) -> spec_fn(BlockId) -> bool {
    |p: BlockId| query::jump_of(f, p) == Some(h)
}

pub open spec fn sources(f: FuncView, h: BlockId) -> Seq<BlockId> {
    cfg::preds(f, h).filter(jumps_to(f, h))
}

pub open spec fn defines(insts: Seq<InstView>) -> spec_fn(usize) -> bool {
    |i: usize| insts[i as int].result is Some
}

/// The leading phis that define a value.
pub open spec fn live_phis(insts: Seq<InstView>) -> Seq<usize> {
    query::leading_from(insts, 0).filter(defines(insts))
}

pub open spec fn entries(inst: InstView) -> Seq<(BlockId, ValueId)> {
    match inst.kind {
        KindView::Phi { incomings } => incomings,
        _ => Seq::empty(),
    }
}

/// The one phi in which two edges differ, and the two updates that it takes.
#[derive(Clone, Copy, PartialEq, Eq, Structural)]
pub struct TailDifference {
    pub phi_at: usize,
    pub lhs: ValueId,
    pub lhs_at: usize,
    pub rhs_at: usize,
}

/// The updates `l` and `r` at the end of two blocks, if they can be merged.
pub open spec fn difference(
    f: FuncView,
    phi_at: usize,
    lp: BlockId,
    rp: BlockId,
    l: ValueId,
    r: ValueId,
) -> Option<TailDifference> {
    match (tail_place(f, lp, l), tail_place(f, rp, r)) {
        (Some(la), Some(ra)) => if query::uses(f, l) == 1 && query::uses(f, r) == 1
            && same_operation(f, f.inst(lp, la as int).kind, f.inst(rp, ra as int).kind) && f.value(
            l,
        ).ty == f.value(r).ty {
            Some(TailDifference { phi_at, lhs: l, lhs_at: la, rhs_at: ra })
        } else {
            None
        },
        _ => None,
    }
}

/// How the phis from number `k` on tell the edges from `lp` and `rp` apart:
/// `None` if they cannot be merged.
pub open spec fn compared_from(
    f: FuncView,
    h: BlockId,
    k: int,
    lp: BlockId,
    rp: BlockId,
    d: Option<TailDifference>,
) -> Option<Option<TailDifference>>
    decreases live_phis(f.block(h).insts).len() - k,
{
    let phis = live_phis(f.block(h).insts);
    if k < 0 || k >= phis.len() {
        Some(d)
    } else {
        let incomings = entries(f.inst(h, phis[k] as int));
        match (query::sole_incoming(incomings, lp), query::sole_incoming(incomings, rp)) {
            (Some(l), Some(r)) => if l == r {
                compared_from(f, h, k + 1, lp, rp, d)
            } else if d is Some {
                None
            } else {
                match difference(f, phis[k], lp, rp, l, r) {
                    Some(e) => compared_from(f, h, k + 1, lp, rp, Some(e)),
                    None => None,
                }
            },
            _ => None,
        }
    }
}

/// Two edges to be merged.
#[derive(Clone, Copy, PartialEq, Eq, Structural)]
pub struct TailPair {
    pub header: BlockId,
    pub lp: BlockId,
    pub rp: BlockId,
    pub d: TailDifference,
}

/// What a search over pairs came to.
pub struct PairScan {
    pub found: Option<TailPair>,
    pub work: nat,
    pub stopped: bool,
}

/// The first pair of edges to `h` at or behind `(i, j)` that can be merged.
pub open spec fn pairs_from(f: FuncView, h: BlockId, i: int, j: int, work: nat) -> PairScan
    decreases sources(f, h).len() - i, sources(f, h).len() - j,
{
    let list = sources(f, h);
    if i < 0 || i >= list.len() {
        PairScan { found: None, work, stopped: false }
    } else if j < 0 || j >= list.len() {
        pairs_from(f, h, i + 1, i + 2, work)
    } else if work + 1 > MAX_TAIL_MERGE_PAIRS {
        PairScan { found: None, work: work + 1, stopped: true }
    } else {
        match compared_from(f, h, 0, list[i], list[j], None) {
            Some(Some(d)) => PairScan {
                found: Some(TailPair { header: h, lp: list[i], rp: list[j], d }),
                work: work + 1,
                stopped: false,
            },
            _ => pairs_from(f, h, i, j + 1, work + 1),
        }
    }
}

/// The first pair of edges to a block at or behind `h` that can be merged.
pub open spec fn first_pair(f: FuncView, h: int, work: nat) -> Option<TailPair>
    decreases f.blocks.len() - h,
{
    if h < 0 || h >= f.blocks.len() {
        None
    } else {
        let id = BlockId(h as usize);
        if live_phis(f.block(id).insts).len() == 0 {
            first_pair(f, h + 1, work)
        } else {
            let scan = pairs_from(f, id, 0, 1, work);
            if scan.stopped || scan.found is Some {
                scan.found
            } else {
                first_pair(f, h + 1, scan.work)
            }
        }
    }
}

/// The phi when the two edges come from the new block `tail`.
pub open spec fn merged_phi(
    inst: InstView,
    at: usize,
    p: TailPair,
    tail: BlockId,
    merged: ValueId,
) -> InstView {
    let incomings = entries(inst);
    let value = if at == p.d.phi_at {
        merged
    } else {
        match query::sole_incoming(incomings, p.lp) {
            Some(v) => v,
            None => merged,
        }
    };
    InstView {
        kind: KindView::Phi {
            incomings: structural::without(structural::without(incomings, p.lp), p.rp).push(
                (tail, value),
            ),
        },
        ..inst
    }
}

/// The function with the first `n` of the listed phis merged.
pub open spec fn phis_merged(
    f: FuncView,
    phis: Seq<usize>,
    p: TailPair,
    tail: BlockId,
    merged: ValueId,
    n: int,
) -> FuncView
    decreases n,
{
    if n <= 0 {
        f
    } else {
        let before = phis_merged(f, phis, p, tail, merged, n - 1);
        before.with_inst(
            p.header,
            phis[n - 1] as int,
            merged_phi(
                before.inst(p.header, phis[n - 1] as int),
                phis[n - 1],
                p,
                tail,
                merged,
            ),
        )
    }
}

/// The function with the two updates merged in a new block.
pub open spec fn tails_merged(f: FuncView, p: TailPair) -> FuncView {
    let tail = f.next_block();
    let f1 = f.add_block("tail.merge"@);
    let merged = f1.next_value();
    let f2 = f1.append(tail, f.inst(p.lp, p.d.lhs_at as int).kind, f.value(p.d.lhs).ty);
    let f3 = f2.with_terminator(tail, Some(Terminator::Jump(p.header))).with_terminator(
        p.lp,
        Some(Terminator::Jump(tail)),
    ).with_terminator(p.rp, Some(Terminator::Jump(tail)));
    let f4 = f3.with_inst(p.lp, p.d.lhs_at as int, edit::nop()).with_inst(
        p.rp,
        p.d.rhs_at as int,
        edit::nop(),
    );
    let phis = live_phis(f.block(p.header).insts);
    phis_merged(f4, phis, p, tail, merged, phis.len() as int)
}

/// The effect of merging the first pair. A result that would not be valid is
/// discarded.
pub open spec fn tail_step(f: FuncView) -> (FuncView, bool) {
    if f.blocks.len() > MAX_TAIL_MERGE_BLOCKS {
        (f, false)
    } else {
        match first_pair(f, 0, 0) {
            Some(p) => if verify::valid(tails_merged(f, p)) {
                (tails_merged(f, p), true)
            } else {
                (f, false)
            },
            None => (f, false),
        }
    }
}

// ---------------------------------------------------------------------------
// Executable search
// ---------------------------------------------------------------------------

fn is_same_value(func: &Function, a: ValueId, b: ValueId) -> (r: bool)
    requires
        func@.has_value(a),
        func@.has_value(b),
    ensures
        r == same_value(func@, a, b),
{
    if a == b {
        return true;
    }
    match (&func.values[a.0].kind, &func.values[b.0].kind) {
        (ValueKind::Const(x), ValueKind::Const(y)) => x.same(y),
        _ => false,
    }
}

fn are_same_values(func: &Function, a: &Vec<ValueId>, b: &Vec<ValueId>) -> (r: bool)
    requires
        edit::reads_wf(a@, func@.values.len()),
        edit::reads_wf(b@, func@.values.len()),
    ensures
        r == same_values(func@, a@, b@),
{
    let n = a.len();
    if n != b.len() {
        return false;
    }
    for k in 0..n
        invariant
            n == a.len(),
            n == b.len(),
            edit::reads_wf(a@, func@.values.len()),
            edit::reads_wf(b@, func@.values.len()),
            forall|j: int| 0 <= j < k ==> same_value(func@, #[trigger] a@[j], b@[j]),
    {
        assert(a@[k as int].0 < func@.values.len());
        assert(b@[k as int].0 < func@.values.len());
        if !is_same_value(func, a[k], b[k]) {
            assert(!same_value(func@, a@[k as int], b@[k as int]));
            return false;
        }
    }
    true
}

/// Whether the two operations compute the same from the same values.
pub fn equivalent_tail_inst(func: &Function, a: &InstKind, b: &InstKind) -> (r: bool)
    requires
        edit::kind_wf(a@, func@.blocks.len(), func@.values.len()),
        edit::kind_wf(b@, func@.blocks.len(), func@.values.len()),
    ensures
        r == same_operation(func@, a@, b@),
{
    match (a, b) {
        (InstKind::Unary { op: p, value: x }, InstKind::Unary { op: q, value: y }) => *p == *q
            && is_same_value(func, *x, *y),
        (
            InstKind::Binary { op: p, lhs: xl, rhs: xr },
            InstKind::Binary { op: q, lhs: yl, rhs: yr },
        ) => *p == *q && is_same_value(func, *xl, *yl) && is_same_value(func, *xr, *yr),
        (
            InstKind::ICompare { op: p, lhs: xl, rhs: xr },
            InstKind::ICompare { op: q, lhs: yl, rhs: yr },
        ) => *p == *q && is_same_value(func, *xl, *yl) && is_same_value(func, *xr, *yr),
        (
            InstKind::FCompare { op: p, lhs: xl, rhs: xr },
            InstKind::FCompare { op: q, lhs: yl, rhs: yr },
        ) => *p == *q && is_same_value(func, *xl, *yl) && is_same_value(func, *xr, *yr),
        (InstKind::Cast { op: p, value: x }, InstKind::Cast { op: q, value: y }) => *p == *q
            && is_same_value(func, *x, *y),
        (InstKind::Gep { base: x, indices: i }, InstKind::Gep { base: y, indices: j }) => {
            is_same_value(func, *x, *y) && are_same_values(func, i, j)
        },
        _ => false,
    }
}

fn edge_tail_definition(func: &Function, b: BlockId, v: ValueId) -> (r: Option<usize>)
    requires
        func@.has_block(b),
        func@.has_value(v),
    ensures
        r == tail_place(func@, b, v),
{
    let at = defining_inst_in_block(func, b, v)?;
    let list = active_insts(func, b);
    let n = list.len();
    if n == 0 || list[n - 1] != at {
        return None;
    }
    let inst = &func.blocks[b.0].insts[at];
    assert(inst@ == func@.inst(b, at as int));
    if inst.result != Some(v) {
        return None;
    }
    Some(at)
}

fn find_difference(
    func: &Function,
    use_counts: &Vec<usize>,
    phi_at: usize,
    lp: BlockId,
    rp: BlockId,
    l: ValueId,
    r: ValueId,
) -> (d: Option<TailDifference>)
    requires
        func@.wf(),
        func@.has_block(lp),
        func@.has_block(rp),
        func@.has_value(l),
        func@.has_value(r),
        use_counts.len() == func@.values.len(),
        forall|v: ValueId|
            func@.has_value(v) ==> query::counts(
                #[trigger] use_counts@[v.0 as int],
                query::uses(func@, v),
            ),
    ensures
        d == difference(func@, phi_at, lp, rp, l, r),
{
    let ghost f = func@;
    let la = edge_tail_definition(func, lp, l)?;
    let ra = edge_tail_definition(func, rp, r)?;
    assert(query::counts(use_counts@[l.0 as int], query::uses(f, l)));
    assert(query::counts(use_counts@[r.0 as int], query::uses(f, r)));
    if use_counts[l.0] != 1 || use_counts[r.0] != 1 {
        return None;
    }
    let a = &func.blocks[lp.0].insts[la].kind;
    let b = &func.blocks[rp.0].insts[ra].kind;
    assert(func.blocks@[lp.0 as int].insts@[la as int]@ == f.inst(lp, la as int));
    assert(func.blocks@[rp.0 as int].insts@[ra as int]@ == f.inst(rp, ra as int));
    proof {
        query::lemma_inst_wf(f, lp, la as int);
        query::lemma_inst_wf(f, rp, ra as int);
    }
    if !equivalent_tail_inst(func, a, b) || !func.values[l.0].ty.same(&func.values[r.0].ty) {
        return None;
    }
    Some(TailDifference { phi_at, lhs: l, lhs_at: la, rhs_at: ra })
}

/// The listed positions hold phis of block `h`.
pub open spec fn phis_at(f: FuncView, h: BlockId, phis: Seq<usize>) -> bool {
    forall|k: int|
        0 <= k < phis.len() ==> f.has_inst(h, (#[trigger] phis[k]) as int) && f.inst(
            h,
            phis[k] as int,
        ).kind is Phi
}

fn find_live_phis(func: &Function, h: BlockId) -> (r: Vec<usize>)
    requires
        func@.has_block(h),
    ensures
        r@ == live_phis(func@.block(h).insts),
        phis_at(func@, h, r@),
{
    let ghost insts = func@.block(h).insts;
    let ghost keep = defines(insts);
    let list = leading_phis(func, h);
    let mut r: Vec<usize> = Vec::new();
    let n = list.len();
    proof {
        reveal(Seq::filter);
        assert(list@.take(0).filter(keep) =~= Seq::<usize>::empty());
    }
    for i in 0..n
        invariant
            func@.has_block(h),
            insts == func@.block(h).insts,
            keep == defines(insts),
            n == list.len(),
            forall|k: int|
                0 <= k < list.len() ==> (#[trigger] list@[k]) < insts.len()
                    && insts[list@[k] as int].kind is Phi,
            r@ == list@.take(i as int).filter(keep),
            phis_at(func@, h, r@),
    {
        proof {
            reveal(Seq::filter);
            assert(list@.take(i + 1).drop_last() =~= list@.take(i as int));
            assert(list@.take(i + 1).last() == list@[i as int]);
        }
        let inst = &func.blocks[h.0].insts[list[i]];
        assert(inst@ == insts[list@[i as int] as int]);
        if inst.result.is_some() {
            r.push(list[i]);
        }
    }
    assert(list@.take(n as int) =~= list@);
    r
}

fn find_sources(func: &Function, graph: &ControlFlowGraph, h: BlockId) -> (r: Vec<BlockId>)
    requires
        func@.wf(),
        graph.of(func@),
        func@.has_block(h),
    ensures
        r@ == sources(func@, h),
        forall|k: int| 0 <= k < r.len() ==> func@.has_block(#[trigger] r@[k]),
        forall|i: int, j: int|
            0 <= i < j < r.len() ==> #[trigger] r@[i] != #[trigger] r@[j],
{
    let ghost f = func@;
    let ghost keep = jumps_to(f, h);
    let list = preds_of(func, graph, h);
    let mut r: Vec<BlockId> = Vec::new();
    let n = list.len();
    proof {
        assert(func.blocks.len() == f.blocks.len());
        cfg::lemma_preds_below_sorted(f, h, f.blocks.len() as int);
        reveal(Seq::filter);
        assert(list@.take(0).filter(keep) =~= Seq::<BlockId>::empty());
    }
    for i in 0..n
        invariant
            f == func@,
            keep == jumps_to(f, h),
            n == list.len(),
            list@ == cfg::preds(f, h),
            forall|k: int| 0 <= k < list.len() ==> (#[trigger] list@[k]).0 < f.blocks.len(),
            forall|a: int, b: int|
                0 <= a < b < list.len() ==> (#[trigger] list@[a]).0 < (#[trigger] list@[b]).0,
            r@ == list@.take(i as int).filter(keep),
            forall|k: int| 0 <= k < r.len() ==> f.has_block(#[trigger] r@[k]),
            forall|k: int, a: int|
                0 <= k < r.len() && i <= a < list.len() ==> (#[trigger] r@[k]).0 < (
                #[trigger] list@[a]).0,
            forall|a: int, b: int|
                0 <= a < b < r.len() ==> #[trigger] r@[a] != #[trigger] r@[b],
    {
        proof {
            reveal(Seq::filter);
            assert(list@.take(i + 1).drop_last() =~= list@.take(i as int));
            assert(list@.take(i + 1).last() == list@[i as int]);
        }
        let p = list[i];
        assert(list@[i as int] == p);
        if jump_target(func, p) == Some(h) {
            r.push(p);
        }
    }
    assert(list@.take(n as int) =~= list@);
    r
}

/// The difference is found at places of the function.
pub open spec fn difference_in(f: FuncView, lp: BlockId, rp: BlockId, d: TailDifference) -> bool {
    f.has_inst(lp, d.lhs_at as int) && f.has_inst(rp, d.rhs_at as int) && f.has_value(d.lhs)
}

#[verifier::loop_isolation(false)]
fn compare_edges(
    func: &Function,
    use_counts: &Vec<usize>,
    h: BlockId,
    phis: &Vec<usize>,
    lp: BlockId,
    rp: BlockId,
) -> (r: Option<TailDifference>)
    requires
        func@.wf(),
        func@.has_block(h),
        func@.has_block(lp),
        func@.has_block(rp),
        phis@ == live_phis(func@.block(h).insts),
        phis_at(func@, h, phis@),
        use_counts.len() == func@.values.len(),
        forall|v: ValueId|
            func@.has_value(v) ==> query::counts(
                #[trigger] use_counts@[v.0 as int],
                query::uses(func@, v),
            ),
    ensures
        match r {
            Some(d) => compared_from(func@, h, 0, lp, rp, None) == Some(Some(d)) && difference_in(
                func@,
                lp,
                rp,
                d,
            ),
            None => compared_from(func@, h, 0, lp, rp, None) is None || compared_from(
                func@,
                h,
                0,
                lp,
                rp,
                None,
            ) == Some(None::<TailDifference>),
        },
{
    let ghost f = func@;
    let mut found: Option<TailDifference> = None;
    let n = phis.len();
    for k in 0..n
        invariant
            compared_from(f, h, 0, lp, rp, None) == compared_from(f, h, k as int, lp, rp, found),
            found matches Some(d) ==> difference_in(f, lp, rp, d),
    {
        let at = phis[k];
        assert(f.has_inst(h, phis@[k as int] as int));
        let inst = &func.blocks[h.0].insts[at];
        assert(inst@ == f.inst(h, at as int));
        proof {
            query::lemma_inst_wf(f, h, at as int);
        }
        if let InstKind::Phi { incomings } = &inst.kind {
            proof {
                query::lemma_sole_incoming_wf(incomings@, lp, f.blocks.len(), f.values.len());
                query::lemma_sole_incoming_wf(incomings@, rp, f.blocks.len(), f.values.len());
            }
            let l = unique_incoming(incomings, lp)?;
            let r = unique_incoming(incomings, rp)?;
            if l != r {
                if found.is_some() {
                    return None;
                }
                match find_difference(func, use_counts, at, lp, rp, l, r) {
                    Some(d) => {
                        found = Some(d);
                    },
                    None => {
                        return None;
                    },
                }
            }
        }
    }
    found
}

/// The pair is found at places of the function.
pub open spec fn pair_in(f: FuncView, p: TailPair) -> bool {
    &&& f.has_block(p.header)
    &&& difference_in(f, p.lp, p.rp, p.d)
    &&& p.lp != p.rp
}

#[verifier::loop_isolation(false)]
fn search_pairs(
    func: &Function,
    graph: &ControlFlowGraph,
    use_counts: &Vec<usize>,
    h: BlockId,
    phis: &Vec<usize>,
    work: &mut usize,
) -> (r: (Option<TailPair>, bool))
    requires
        func@.wf(),
        graph.of(func@),
        func@.has_block(h),
        phis@ == live_phis(func@.block(h).insts),
        phis_at(func@, h, phis@),
        *old(work) <= MAX_TAIL_MERGE_PAIRS,
        use_counts.len() == func@.values.len(),
        forall|v: ValueId|
            func@.has_value(v) ==> query::counts(
                #[trigger] use_counts@[v.0 as int],
                query::uses(func@, v),
            ),
    ensures
        pairs_from(func@, h, 0, 1, *old(work) as nat) == (PairScan {
            found: r.0,
            work: *final(work) as nat,
            stopped: r.1,
        }),
        r.0 matches Some(p) ==> pair_in(func@, p),
        !r.1 ==> *final(work) <= MAX_TAIL_MERGE_PAIRS,
{
    let ghost f = func@;
    let ghost want = pairs_from(f, h, 0, 1, *work as nat);
    let list = find_sources(func, graph, h);
    let n = list.len();
    for i in 0..n
        invariant
            want == pairs_from(f, h, i as int, i + 1, *work as nat),
            *work <= MAX_TAIL_MERGE_PAIRS,
    {
        for j in i + 1..n
            invariant
                want == pairs_from(f, h, i as int, j as int, *work as nat),
                *work <= MAX_TAIL_MERGE_PAIRS,
        {
            *work = *work + 1;
            if *work > MAX_TAIL_MERGE_PAIRS {
                return (None, true);
            }
            let (lp, rp) = (list[i], list[j]);
            assert(list@[i as int] != list@[j as int]);
            if let Some(d) = compare_edges(func, use_counts, h, phis, lp, rp) {
                return (Some(TailPair { header: h, lp, rp, d }), false);
            }
        }
        assert(want == pairs_from(f, h, i + 1, i + 2, *work as nat));
    }
    (None, false)
}

#[verifier::loop_isolation(false)]
fn search_tails(func: &Function) -> (r: Option<TailPair>)
    requires
        func@.wf(),
    ensures
        r == first_pair(func@, 0, 0),
        r matches Some(p) ==> pair_in(func@, p),
{
    let ghost f = func@;
    let use_counts = value_use_counts(func);
    let graph = ControlFlowGraph::new(func);
    let n = func.blocks.len();
    let mut work: usize = 0;
    for h in 0..n
        invariant
            work <= MAX_TAIL_MERGE_PAIRS,
            first_pair(f, 0, 0) == first_pair(f, h as int, work as nat),
    {
        let id = BlockId(h);
        let phis = find_live_phis(func, id);
        if phis.len() > 0 {
            let (found, stopped) = search_pairs(func, &graph, &use_counts, id, &phis, &mut work);
            if stopped || found.is_some() {
                return found;
            }
        }
    }
    None
}

// ---------------------------------------------------------------------------
// Executable merging
// ---------------------------------------------------------------------------

fn drop_entries(incomings: &Vec<(BlockId, ValueId)>, pred: BlockId) -> (r: Vec<(BlockId, ValueId)>)
    ensures
        r@ == structural::without(incomings@, pred),
{
    let ghost keep = structural::not_from(pred);
    let mut r: Vec<(BlockId, ValueId)> = Vec::new();
    let n = incomings.len();
    proof {
        reveal(Seq::filter);
        assert(incomings@.take(0).filter(keep) =~= Seq::<(BlockId, ValueId)>::empty());
    }
    for i in 0..n
        invariant
            n == incomings.len(),
            keep == structural::not_from(pred),
            r@ == incomings@.take(i as int).filter(keep),
    {
        proof {
            reveal(Seq::filter);
            assert(incomings@.take(i + 1).drop_last() =~= incomings@.take(i as int));
            assert(incomings@.take(i + 1).last() == incomings@[i as int]);
        }
        if incomings[i].0 != pred {
            r.push((incomings[i].0, incomings[i].1));
        }
    }
    assert(incomings@.take(n as int) =~= incomings@);
    r
}

fn merge_phi(inst: &Inst, at: usize, p: TailPair, tail: BlockId, merged: ValueId) -> (r: Inst)
    ensures
        r@ == merged_phi(inst@, at, p, tail, merged),
{
    let empty: Vec<(BlockId, ValueId)> = Vec::new();
    let incomings = match &inst.kind {
        InstKind::Phi { incomings } => incomings,
        _ => &empty,
    };
    assert(incomings@ =~= entries(inst@));
    let value = if at == p.d.phi_at {
        merged
    } else {
        match unique_incoming(incomings, p.lp) {
            Some(v) => v,
            None => merged,
        }
    };
    let mut list = drop_entries(&drop_entries(incomings, p.lp), p.rp);
    list.push((tail, value));
    Inst { result: inst.result, kind: InstKind::Phi { incomings: list } }
}

#[verifier::loop_isolation(false)]
fn merge_tails(func: &mut Function, p: TailPair)
    requires
        old(func)@.wf(),
        pair_in(old(func)@, p),
    ensures
        final(func)@ == tails_merged(old(func)@, p),
{
    let ghost f = func@;
    let phis = find_live_phis(func, p.header);
    let kind = func.blocks[p.lp.0].insts[p.d.lhs_at].kind.clone();
    let ty = func.values[p.d.lhs.0].ty.clone();
    assert(func.blocks@[p.lp.0 as int].insts@[p.d.lhs_at as int]@ == f.inst(
        p.lp,
        p.d.lhs_at as int,
    ));
    let tail = func.add_block("tail.merge");
    assert(func.blocks.len() == func@.blocks.len());
    let merged = func.append_value(tail, kind, ty);
    func.set_terminator(tail, Terminator::Jump(p.header));
    func.set_terminator(p.lp, Terminator::Jump(tail));
    func.set_terminator(p.rp, Terminator::Jump(tail));
    func.clear_inst(p.lp, p.d.lhs_at);
    func.clear_inst(p.rp, p.d.rhs_at);
    let ghost f4 = func@;
    assert(f4.block(p.header).insts.len() >= f.block(p.header).insts.len());
    let n = phis.len();
    for k in 0..n
        invariant
            func@ == phis_merged(f4, phis@, p, tail, merged, k as int),
            func@.has_block(p.header),
            func@.block(p.header).insts.len() == f4.block(p.header).insts.len(),
    {
        let at = phis[k];
        assert(f.has_inst(p.header, phis@[k as int] as int));
        assert(func.blocks.len() == func@.blocks.len());
        assert(func.blocks@[p.header.0 as int]@ == func@.block(p.header));
        let inst = merge_phi(&func.blocks[p.header.0].insts[at], at, p, tail, merged);
        func.set_inst(p.header, at, inst);
    }
}

/// Merges the same update on two edges to one phi into a block that the two
/// edges share.
pub fn merge_equivalent_phi_edge_updates(func: &mut Function) -> (r: bool)
    requires
        old(func)@.wf(),
    ensures
        (final(func)@, r) == tail_step(old(func)@),
        final(func)@.wf(),
{
    if func.blocks.len() > MAX_TAIL_MERGE_BLOCKS {
        return false;
    }
    match search_tails(func) {
        Some(p) => {
            let before = func.clone();
            merge_tails(func, p);
            if func.verify().is_err() {
                *func = before;
                return false;
            }
            true
        },
        None => false,
    }
}

} // verus!
