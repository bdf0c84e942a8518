//! The rewriting: two caches around the inner reduction.
use vstd::prelude::*;

use crate::cfg;
use crate::edit;
use crate::emit;
use crate::emit::{
    emit, end_branch, end_jump, extend_phi, insert, new_block, place, refill,
};
use crate::ir;
use crate::ir::{
    BlockId, Const, FuncView, Function, Inst, InstKind, InstView, KindView, Terminator, Type,
    ValueId,
};
use crate::pass::periodic_reduction_memoize::recognize;
use crate::pass::periodic_reduction_memoize::recognize::Candidate;
use crate::util;
use crate::util::{get_or_add_const, resolve_kind, resolve_terminator, ValueMap};

verus! {

/// The phis that hold the results, and whether they were computed.
#[derive(Clone, Copy, PartialEq, Eq, Structural)]
pub struct Caches {
    pub cache_true: ValueId,
    pub cache_false: ValueId,
    pub initialized_true: ValueId,
    pub initialized_false: ValueId,
    pub true_value: ValueId,
}

/// The new blocks.
#[derive(Clone, Copy, PartialEq, Eq, Structural)]
pub struct Blocks {
    pub check_true: usize,
    pub check_false: usize,
    pub reuse_true: usize,
    pub reuse_false: usize,
    pub update_true: usize,
    pub update_false: usize,
    pub merge: usize,
}

/// The values at the merge.
#[derive(Clone, Copy, PartialEq, Eq, Structural)]
pub struct Merged {
    pub selected: ValueId,
    pub next_cache_true: ValueId,
    pub next_cache_false: ValueId,
    pub next_initialized_true: ValueId,
    pub next_initialized_false: ValueId,
}

// ---------------------------------------------------------------------------
// Mathematical model
// ---------------------------------------------------------------------------

/// The number of phis at the start of the instructions, from place `k` on.
pub open spec fn leading(insts: Seq<InstView>, k: int) -> int
    decreases insts.len() - k,
{
    if k < 0 || k >= insts.len() || !(insts[k].kind is Phi) {
        k
    } else {
        leading(insts, k + 1)
    }
}

pub open spec fn one_entry(pred: BlockId, v: ValueId) -> KindView {
    KindView::Phi { incomings: seq![(pred, v)] }
}

/// The function with the phis for the caches at the outer header.
pub open spec fn with_caches(f: FuncView, c: Candidate) -> (FuncView, Caches) {
    let zero = util::const_value(f, Const::Float(0));
    let g1 = util::with_const(f, Const::Float(0));
    let no = util::const_value(g1, Const::Bool(false));
    let g2 = util::with_const(g1, Const::Bool(false));
    let true_value = util::const_value(g2, Const::Bool(true));
    let g3 = util::with_const(g2, Const::Bool(true));
    let h = c.outer_header.0;
    let at = leading(g3.block(c.outer_header).insts, 0);
    let cache_true = g3.next_value();
    let g4 = emit::inserted(g3, h, at, one_entry(c.outer_entering, zero), Type::F32);
    let cache_false = g4.next_value();
    let g5 = emit::inserted(g4, h, at + 1, one_entry(c.outer_entering, zero), Type::F32);
    let initialized_true = g5.next_value();
    let g6 = emit::inserted(g5, h, at + 2, one_entry(c.outer_entering, no), Type::I1);
    let initialized_false = g6.next_value();
    let g7 = emit::inserted(g6, h, at + 3, one_entry(c.outer_entering, no), Type::I1);
    (g7, Caches { cache_true, cache_false, initialized_true, initialized_false, true_value })
}

/// The function with the new blocks.
pub open spec fn with_blocks(f: FuncView) -> (FuncView, Blocks) {
    let n = f.blocks.len();
    let g1 = emit::block_added(f, "periodic.check.true"@);
    let g2 = emit::block_added(g1, "periodic.check.false"@);
    let g3 = emit::block_added(g2, "periodic.reuse.true"@);
    let g4 = emit::block_added(g3, "periodic.reuse.false"@);
    let g5 = emit::block_added(g4, "periodic.update.true"@);
    let g6 = emit::block_added(g5, "periodic.update.false"@);
    let g7 = emit::block_added(g6, "periodic.merge"@);
    (
        g7,
        Blocks {
            check_true: n as usize,
            check_false: (n + 1) as usize,
            reuse_true: (n + 2) as usize,
            reuse_false: (n + 3) as usize,
            update_true: (n + 4) as usize,
            update_false: (n + 5) as usize,
            merge: (n + 6) as usize,
        },
    )
}

/// The incoming list with the first entry from `pred`, from place `k` on,
/// split in two.
pub open spec fn split_entry(
    incomings: Seq<(BlockId, ValueId)>,
    pred: BlockId,
    a: BlockId,
    b: BlockId,
    k: int,
) -> Seq<(BlockId, ValueId)>
    decreases incomings.len() - k,
{
    if k < 0 || k >= incomings.len() {
        incomings
    } else if incomings[k].0 == pred {
        incomings.update(k, (a, incomings[k].1)).push((b, incomings[k].1))
    } else {
        split_entry(incomings, pred, a, b, k + 1)
    }
}

pub open spec fn split_inst(inst: InstView, pred: BlockId, a: BlockId, b: BlockId) -> InstView {
    match inst.kind {
        KindView::Phi { incomings } => InstView {
            kind: KindView::Phi { incomings: split_entry(incomings, pred, a, b, 0) },
            ..inst
        },
        _ => inst,
    }
}

/// The function that tests the caches before the inner loop.
pub open spec fn with_checks(f: FuncView, c: Candidate, k: Caches, b: Blocks) -> FuncView {
    let g1 = emit::ended(
        f,
        c.inner_preheader.0,
        emit::branch(c.branch_condition, b.check_true, b.check_false),
    );
    let g2 = emit::ended(
        g1,
        b.check_true,
        emit::branch(k.initialized_true, b.reuse_true, c.inner_header.0),
    );
    let g3 = emit::ended(
        g2,
        b.check_false,
        emit::branch(k.initialized_false, b.reuse_false, c.inner_header.0),
    );
    let insts = g3.block(c.inner_header).insts;
    emit::refilled(
        g3,
        c.inner_header.0,
        Seq::new(
            insts.len(),
            |i: int|
                split_inst(
                    insts[i],
                    c.inner_preheader,
                    BlockId(b.check_true),
                    BlockId(b.check_false),
                ),
        ),
    )
}

/// The function with an empty exit that goes to the updates.
pub open spec fn with_exit_cleared(f: FuncView, c: Candidate, b: Blocks) -> FuncView {
    let n = f.block(c.inner_exit).insts.len();
    let g1 = emit::refilled(f, c.inner_exit.0, Seq::new(n, |i: int| edit::nop()));
    let g2 = emit::ended(
        g1,
        c.inner_exit.0,
        emit::branch(c.branch_condition, b.update_true, b.update_false),
    );
    let g3 = emit::ended(g2, b.update_true, Terminator::Jump(BlockId(b.merge)));
    let g4 = emit::ended(g3, b.update_false, Terminator::Jump(BlockId(b.merge)));
    let g5 = emit::ended(g4, b.reuse_true, Terminator::Jump(BlockId(b.merge)));
    emit::ended(g5, b.reuse_false, Terminator::Jump(BlockId(b.merge)))
}

/// A phi of the merge.
pub open spec fn merge_phi(b: Blocks, ut: ValueId, uf: ValueId, rt: ValueId, rf: ValueId) -> KindView {
    KindView::Phi {
        incomings: seq![
            (BlockId(b.update_true), ut),
            (BlockId(b.update_false), uf),
            (BlockId(b.reuse_true), rt),
            (BlockId(b.reuse_false), rf),
        ],
    }
}

/// The function with the phis of the merge.
pub open spec fn with_merge(f: FuncView, c: Candidate, k: Caches, b: Blocks) -> (FuncView, Merged) {
    let a = c.accumulator;
    let (ct, cf) = (k.cache_true, k.cache_false);
    let (it, jf) = (k.initialized_true, k.initialized_false);
    let selected = f.next_value();
    let g1 = emit::emitted(f, b.merge, merge_phi(b, a, a, ct, cf), Type::F32);
    let next_cache_true = g1.next_value();
    let g2 = emit::emitted(g1, b.merge, merge_phi(b, a, ct, ct, ct), Type::F32);
    let next_cache_false = g2.next_value();
    let g3 = emit::emitted(g2, b.merge, merge_phi(b, cf, a, cf, cf), Type::F32);
    let next_initialized_true = g3.next_value();
    let g4 = emit::emitted(g3, b.merge, merge_phi(b, k.true_value, it, it, it), Type::I1);
    let next_initialized_false = g4.next_value();
    let g5 = emit::emitted(g4, b.merge, merge_phi(b, jf, k.true_value, jf, jf), Type::I1);
    (
        g5,
        Merged {
            selected,
            next_cache_true,
            next_cache_false,
            next_initialized_true,
            next_initialized_false,
        },
    )
}

/// The substitution of the accumulator.
pub open spec fn substitution(c: Candidate, m: Merged) -> Map<ValueId, ValueId> {
    Map::<ValueId, ValueId>::empty().insert(c.accumulator, m.selected)
}

/// The results of the first `n` instructions are defined in block `b` from
/// place `at` on.
pub open spec fn results_placed(f: FuncView, insts: Seq<InstView>, b: usize, at: nat, n: int) -> FuncView
    decreases n,
{
    if n <= 0 {
        f
    } else {
        let before = results_placed(f, insts, b, at, n - 1);
        match insts[n - 1].result {
            Some(r) => emit::placed(before, r, b, (at + (n - 1)) as usize),
            None => before,
        }
    }
}

/// The function with the instructions, with their operands replaced, at the
/// end of block `b`.
pub open spec fn with_suffix(
    f: FuncView,
    b: usize,
    insts: Seq<InstView>,
    map: Map<ValueId, ValueId>,
) -> FuncView {
    let own = f.block(BlockId(b)).insts;
    let moved = insts.map_values(|inst: InstView| util::map_inst(inst, util::resolver(map, 1)));
    results_placed(
        emit::refilled(f, b, own + moved),
        insts,
        b,
        own.len(),
        insts.len() as int,
    )
}

/// The entry with its block and its value replaced.
pub open spec fn retargeted_entry(
    entry: (BlockId, ValueId),
    from: BlockId,
    to: BlockId,
    map: Map<ValueId, ValueId>,
) -> (BlockId, ValueId) {
    (
        if entry.0 == from {
            to
        } else {
            entry.0
        },
        util::resolve(map, entry.1, 1),
    )
}

pub open spec fn retargeted_inst(
    inst: InstView,
    from: BlockId,
    to: BlockId,
    map: Map<ValueId, ValueId>,
) -> InstView {
    match inst.kind {
        KindView::Phi { incomings } => InstView {
            kind: KindView::Phi {
                incomings: incomings.map_values(
                    |e: (BlockId, ValueId)| retargeted_entry(e, from, to, map),
                ),
            },
            ..inst
        },
        _ => inst,
    }
}

/// The function with the phis of block `b` taking from `to` what they took
/// from `from`, with values replaced.
pub open spec fn phis_retargeted(
    f: FuncView,
    b: BlockId,
    from: BlockId,
    to: BlockId,
    map: Map<ValueId, ValueId>,
) -> FuncView {
    let insts = f.block(b).insts;
    if f.has_block(b) {
        emit::refilled(
            f,
            b.0,
            Seq::new(insts.len(), |i: int| retargeted_inst(insts[i], from, to, map)),
        )
    } else {
        f
    }
}

/// The same for the first `n` blocks of a list.
pub open spec fn all_retargeted(
    f: FuncView,
    list: Seq<BlockId>,
    from: BlockId,
    to: BlockId,
    map: Map<ValueId, ValueId>,
    n: int,
) -> FuncView
    decreases n,
{
    if n <= 0 {
        f
    } else {
        phis_retargeted(all_retargeted(f, list, from, to, map, n - 1), list[n - 1], from, to, map)
    }
}

/// The function whose merge goes on as the exit did.
pub open spec fn with_continuation(
    f: FuncView,
    c: Candidate,
    b: Blocks,
    t: Option<Terminator>,
    map: Map<ValueId, ValueId>,
) -> FuncView {
    match util::map_terminator(t, util::resolver(map, 1)) {
        Some(u) => {
            let list = cfg::succ_list(Some(u));
            emit::ended(
                all_retargeted(f, list, c.inner_exit, BlockId(b.merge), map, list.len() as int),
                b.merge,
                u,
            )
        },
        None => f,
    }
}

/// The function with the back edges of the caches.
pub open spec fn with_back_edges(f: FuncView, c: Candidate, k: Caches, b: Blocks, m: Merged) -> FuncView {
    let merge = BlockId(b.merge);
    let g1 = phis_retargeted(f, c.outer_header, c.outer_latch, merge, Map::empty());
    let g2 = emit::phi_extended(g1, k.cache_true, (merge, m.next_cache_true));
    let g3 = emit::phi_extended(g2, k.cache_false, (merge, m.next_cache_false));
    let g4 = emit::phi_extended(g3, k.initialized_true, (merge, m.next_initialized_true));
    emit::phi_extended(g4, k.initialized_false, (merge, m.next_initialized_false))
}

/// The function with the two caches.
pub open spec fn memoized(f: FuncView, c: Candidate) -> FuncView {
    let (g1, k) = with_caches(f, c);
    let (g2, b) = with_blocks(g1);
    let g3 = with_checks(g2, c, k, b);
    let suffix = g3.block(c.inner_exit).insts;
    let t = g3.terminator(c.inner_exit);
    let g4 = with_exit_cleared(g3, c, b);
    let (g5, m) = with_merge(g4, c, k, b);
    let map = substitution(c, m);
    let g6 = with_suffix(g5, b.merge, suffix, map);
    let g7 = with_continuation(g6, c, b, t, map);
    with_back_edges(g7, c, k, b, m)
}

// ---------------------------------------------------------------------------
// Executable functions
// ---------------------------------------------------------------------------

fn count_leading(func: &Function, b: BlockId) -> (r: usize)
    requires
        func@.has_block(b),
    ensures
        r == leading(func@.block(b).insts, 0),
        r <= func@.block(b).insts.len(),
{
    let ghost insts = func@.block(b).insts;
    let n = func.blocks[b.0].insts.len();
    let mut k: usize = 0;
    while k < n
        invariant
            func@.has_block(b),
            insts == func@.block(b).insts,
            n == insts.len(),
            k <= n,
            leading(insts, 0) == leading(insts, k as int),
        decreases n - k,
    {
        assert(func.blocks@[b.0 as int].insts@[k as int]@ == insts[k as int]);
        match func.blocks[b.0].insts[k].kind {
            InstKind::Phi { .. } => {
                k = k + 1;
            },
            _ => {
                return k;
            },
        }
    }
    k
}

fn single_phi(pred: BlockId, v: ValueId) -> (r: InstKind)
    ensures
        r@ == one_entry(pred, v),
{
    let incomings = vec![(pred, v)];
    assert(incomings@ =~= seq![(pred, v)]);
    InstKind::Phi { incomings }
}

fn add_caches(func: &mut Function, c: Candidate) -> (r: Caches)
    requires
        old(func)@.has_block(c.outer_header),
    ensures
        (final(func)@, r) == with_caches(old(func)@, c),
        final(func)@.blocks.len() == old(func)@.blocks.len(),
{
    let zero = get_or_add_const(func, &Const::Float(0));
    let no = get_or_add_const(func, &Const::Bool(false));
    let true_value = get_or_add_const(func, &Const::Bool(true));
    let h = c.outer_header.0;
    let at = count_leading(func, c.outer_header);
    assert(func.blocks@[h as int]@ == func@.blocks[h as int]);
    let size = func.blocks[h].insts.len();
    assert(size == func@.blocks[h as int].insts.len());
    let cache_true = insert(func, h, at, single_phi(c.outer_entering, zero), Type::F32);
    assert(func.blocks@[h as int]@ == func@.blocks[h as int]);
    let size = func.blocks[h].insts.len();
    let cache_false = insert(func, h, at + 1, single_phi(c.outer_entering, zero), Type::F32);
    assert(func.blocks@[h as int]@ == func@.blocks[h as int]);
    let size = func.blocks[h].insts.len();
    let initialized_true = insert(func, h, at + 2, single_phi(c.outer_entering, no), Type::I1);
    assert(func.blocks@[h as int]@ == func@.blocks[h as int]);
    let size = func.blocks[h].insts.len();
    let initialized_false = insert(func, h, at + 3, single_phi(c.outer_entering, no), Type::I1);
    Caches { cache_true, cache_false, initialized_true, initialized_false, true_value }
}

fn add_blocks(func: &mut Function) -> (r: Blocks)
    ensures
        (final(func)@, r) == with_blocks(old(func)@),
        final(func)@.blocks.len() == old(func)@.blocks.len() + 7,
        old(func)@.blocks.len() <= r.check_true < final(func)@.blocks.len(),
        old(func)@.blocks.len() <= r.check_false < final(func)@.blocks.len(),
        old(func)@.blocks.len() <= r.reuse_true < final(func)@.blocks.len(),
        old(func)@.blocks.len() <= r.reuse_false < final(func)@.blocks.len(),
        old(func)@.blocks.len() <= r.update_true < final(func)@.blocks.len(),
        old(func)@.blocks.len() <= r.update_false < final(func)@.blocks.len(),
        old(func)@.blocks.len() <= r.merge < final(func)@.blocks.len(),
{
    let check_true = new_block(func, "periodic.check.true");
    let check_false = new_block(func, "periodic.check.false");
    let reuse_true = new_block(func, "periodic.reuse.true");
    let reuse_false = new_block(func, "periodic.reuse.false");
    let update_true = new_block(func, "periodic.update.true");
    let update_false = new_block(func, "periodic.update.false");
    let merge = new_block(func, "periodic.merge");
    Blocks { check_true, check_false, reuse_true, reuse_false, update_true, update_false, merge }
}

fn split_incomings(
    incomings: &Vec<(BlockId, ValueId)>,
    pred: BlockId,
    a: BlockId,
    b: BlockId,
) -> (r: Vec<(BlockId, ValueId)>)
    ensures
        r@ == split_entry(incomings@, pred, a, b, 0),
{
    let mut r = ir::clone_incomings(incomings);
    let n = r.len();
    for k in 0..n
        invariant
            n == r.len(),
            r@ == incomings@,
            split_entry(incomings@, pred, a, b, 0) == split_entry(
                incomings@,
                pred,
                a,
                b,
                k as int,
            ),
    {
        if r[k].0 == pred {
            let v = r[k].1;
            r[k] = (a, v);
            r.push((b, v));
            return r;
        }
    }
    r
}

#[verifier::loop_isolation(false)]
fn split_phis(func: &mut Function, h: BlockId, pred: BlockId, a: BlockId, b: BlockId)
    requires
        old(func)@.has_block(h),
    ensures
        final(func)@ == emit::refilled(
            old(func)@,
            h.0,
            Seq::new(
                old(func)@.block(h).insts.len(),
                |i: int| split_inst(old(func)@.block(h).insts[i], pred, a, b),
            ),
        ),
        final(func)@.blocks.len() == old(func)@.blocks.len(),
        final(func)@.values.len() == old(func)@.values.len(),
{
    let ghost insts = func@.block(h).insts;
    let n = func.blocks[h.0].insts.len();
    let mut list: Vec<Inst> = Vec::new();
    for i in 0..n
        invariant
            n == insts.len(),
            list.len() == i,
            forall|j: int| 0 <= j < i ==> #[trigger] list@[j]@ == split_inst(insts[j], pred, a, b),
    {
        let inst = &func.blocks[h.0].insts[i];
        assert(inst@ == insts[i as int]);
        match &inst.kind {
            InstKind::Phi { incomings } => {
                let split = split_incomings(incomings, pred, a, b);
                list.push(Inst { result: inst.result, kind: InstKind::Phi { incomings: split } });
            },
            _ => {
                list.push(inst.clone());
            },
        }
    }
    assert(ir::insts_view(list@) =~= Seq::new(
        insts.len(),
        |i: int| split_inst(insts[i], pred, a, b),
    ));
    refill(func, h.0, list);
}

fn add_checks(func: &mut Function, c: Candidate, k: Caches, b: Blocks)
    requires
        old(func)@.has_block(c.inner_preheader),
        old(func)@.has_block(c.inner_header),
        b.check_true < old(func)@.blocks.len(),
        b.check_false < old(func)@.blocks.len(),
    ensures
        final(func)@ == with_checks(old(func)@, c, k, b),
        final(func)@.blocks.len() == old(func)@.blocks.len(),
{
    end_branch(func, c.inner_preheader.0, c.branch_condition, b.check_true, b.check_false);
    end_branch(func, b.check_true, k.initialized_true, b.reuse_true, c.inner_header.0);
    end_branch(func, b.check_false, k.initialized_false, b.reuse_false, c.inner_header.0);
    split_phis(
        func,
        c.inner_header,
        c.inner_preheader,
        BlockId(b.check_true),
        BlockId(b.check_false),
    );
}

fn empty_insts(n: usize) -> (r: Vec<Inst>)
    ensures
        ir::insts_view(r@) == Seq::new(n as nat, |i: int| edit::nop()),
{
    let mut list: Vec<Inst> = Vec::new();
    for i in 0..n
        invariant
            list.len() == i,
            forall|j: int| 0 <= j < i ==> #[trigger] list@[j]@ == edit::nop(),
    {
        list.push(Inst { result: None, kind: InstKind::Nop });
    }
    assert(ir::insts_view(list@) =~= Seq::new(n as nat, |i: int| edit::nop()));
    list
}

fn clear_exit(func: &mut Function, c: Candidate, b: Blocks)
    requires
        old(func)@.has_block(c.inner_exit),
        b.update_true < old(func)@.blocks.len(),
        b.update_false < old(func)@.blocks.len(),
        b.reuse_true < old(func)@.blocks.len(),
        b.reuse_false < old(func)@.blocks.len(),
    ensures
        final(func)@ == with_exit_cleared(old(func)@, c, b),
        final(func)@.blocks.len() == old(func)@.blocks.len(),
{
    assert(func.blocks@[c.inner_exit.0 as int]@ == func@.block(c.inner_exit));
    let n = func.blocks[c.inner_exit.0].insts.len();
    refill(func, c.inner_exit.0, empty_insts(n));
    end_branch(func, c.inner_exit.0, c.branch_condition, b.update_true, b.update_false);
    end_jump(func, b.update_true, b.merge);
    end_jump(func, b.update_false, b.merge);
    end_jump(func, b.reuse_true, b.merge);
    end_jump(func, b.reuse_false, b.merge);
}

fn four_entries(b: Blocks, ut: ValueId, uf: ValueId, rt: ValueId, rf: ValueId) -> (r: InstKind)
    ensures
        r@ == merge_phi(b, ut, uf, rt, rf),
{
    let incomings = vec![
        (BlockId(b.update_true), ut),
        (BlockId(b.update_false), uf),
        (BlockId(b.reuse_true), rt),
        (BlockId(b.reuse_false), rf),
    ];
    assert(incomings@ =~= seq![
        (BlockId(b.update_true), ut),
        (BlockId(b.update_false), uf),
        (BlockId(b.reuse_true), rt),
        (BlockId(b.reuse_false), rf),
    ]);
    InstKind::Phi { incomings }
}

fn add_merge(func: &mut Function, c: Candidate, k: Caches, b: Blocks) -> (r: Merged)
    requires
        b.merge < old(func)@.blocks.len(),
    ensures
        (final(func)@, r) == with_merge(old(func)@, c, k, b),
        final(func)@.blocks.len() == old(func)@.blocks.len(),
{
    let a = c.accumulator;
    let (ct, cf) = (k.cache_true, k.cache_false);
    let (it, jf) = (k.initialized_true, k.initialized_false);
    let selected = emit(func, b.merge, four_entries(b, a, a, ct, cf), Type::F32);
    let next_cache_true = emit(func, b.merge, four_entries(b, a, ct, ct, ct), Type::F32);
    let next_cache_false = emit(func, b.merge, four_entries(b, cf, a, cf, cf), Type::F32);
    let next_initialized_true = emit(
        func,
        b.merge,
        four_entries(b, k.true_value, it, it, it),
        Type::I1,
    );
    let next_initialized_false = emit(
        func,
        b.merge,
        four_entries(b, jf, k.true_value, jf, jf),
        Type::I1,
    );
    Merged {
        selected,
        next_cache_true,
        next_cache_false,
        next_initialized_true,
        next_initialized_false,
    }
}

#[verifier::loop_isolation(false)]
fn add_suffix(func: &mut Function, b: usize, insts: &Vec<Inst>, map: &ValueMap)
    requires
        b < old(func)@.blocks.len(),
    ensures
        final(func)@ == with_suffix(old(func)@, b, ir::insts_view(insts@), map@),
        final(func)@.blocks.len() == old(func)@.blocks.len(),
{
    let ghost f = func@;
    let ghost own = f.block(BlockId(b)).insts;
    let ghost list = ir::insts_view(insts@);
    let ghost g = util::resolver(map@, 1);
    let m = func.blocks[b].insts.len();
    let n = insts.len();
    assert(func.blocks@[b as int]@ == f.blocks[b as int]);
    let mut all: Vec<Inst> = Vec::new();
    for i in 0..m
        invariant
            m == own.len(),
            all.len() == i,
            forall|j: int| 0 <= j < i ==> #[trigger] all@[j]@ == own[j],
    {
        assert(func.blocks@[b as int].insts@[i as int]@ == own[i as int]);
        all.push(func.blocks[b].insts[i].clone());
    }
    for i in 0..n
        invariant
            all.len() == m + i,
            forall|j: int| 0 <= j < m ==> #[trigger] all@[j]@ == own[j],
            forall|j: int|
                0 <= j < i ==> (#[trigger] all@[m + j])@ == util::map_inst(list[j], g),
    {
        let inst = &insts[i];
        assert(list[i as int] == inst@);
        all.push(Inst { result: inst.result, kind: resolve_kind(&inst.kind, map, 1) });
        assert forall|j: int| 0 <= j < i + 1 implies (#[trigger] all@[m + j])@ == util::map_inst(
            list[j],
            g,
        ) by {
            if j < i {
                assert(all@[m + j]@ == util::map_inst(list[j], g));
            }
        }
    }
    let ghost want = own + list.map_values(|inst: InstView| util::map_inst(inst, g));
    assert(ir::insts_view(all@) =~= want) by {
        assert(ir::insts_view(all@).len() == want.len());
        assert forall|j: int| 0 <= j < want.len() implies ir::insts_view(all@)[j] == want[j] by {
            if j >= m {
                assert(all@[m + (j - m)]@ == util::map_inst(list[j - m], g));
            }
        }
    }
    assert(all.len() == m + n);
    refill(func, b, all);
    let ghost g1 = func@;
    for i in 0..n
        invariant
            m + n <= usize::MAX,
            func@ == results_placed(g1, list, b, m as nat, i as int),
            func@.blocks == g1.blocks,
    {
        assert(list[i as int] == insts@[i as int]@);
        if let Some(r) = insts[i].result {
            place(func, r, b, m + i);
        }
    }
}

fn retarget_incomings(
    incomings: &Vec<(BlockId, ValueId)>,
    from: BlockId,
    to: BlockId,
    map: &ValueMap,
) -> (r: Vec<(BlockId, ValueId)>)
    ensures
        r@ == incomings@.map_values(
            |e: (BlockId, ValueId)| retargeted_entry(e, from, to, map@),
        ),
{
    let n = incomings.len();
    let mut r: Vec<(BlockId, ValueId)> = Vec::new();
    for k in 0..n
        invariant
            n == incomings.len(),
            r.len() == k,
            forall|j: int|
                0 <= j < k ==> #[trigger] r@[j] == retargeted_entry(incomings@[j], from, to, map@),
    {
        let (p, v) = incomings[k];
        let q = if p == from {
            to
        } else {
            p
        };
        r.push((q, map.resolve(v, 1)));
    }
    assert(r@ =~= incomings@.map_values(
        |e: (BlockId, ValueId)| retargeted_entry(e, from, to, map@),
    ));
    r
}

#[verifier::loop_isolation(false)]
fn retarget_phis(func: &mut Function, b: BlockId, from: BlockId, to: BlockId, map: &ValueMap)
    ensures
        final(func)@ == phis_retargeted(old(func)@, b, from, to, map@),
        final(func)@.blocks.len() == old(func)@.blocks.len(),
{
    if b.0 >= func.blocks.len() {
        return ;
    }
    let ghost insts = func@.block(b).insts;
    let n = func.blocks[b.0].insts.len();
    let mut list: Vec<Inst> = Vec::new();
    for i in 0..n
        invariant
            n == insts.len(),
            list.len() == i,
            forall|j: int|
                0 <= j < i ==> #[trigger] list@[j]@ == retargeted_inst(insts[j], from, to, map@),
    {
        let inst = &func.blocks[b.0].insts[i];
        assert(inst@ == insts[i as int]);
        match &inst.kind {
            InstKind::Phi { incomings } => {
                let changed = retarget_incomings(incomings, from, to, map);
                list.push(
                    Inst { result: inst.result, kind: InstKind::Phi { incomings: changed } },
                );
            },
            _ => {
                list.push(inst.clone());
            },
        }
    }
    assert(ir::insts_view(list@) =~= Seq::new(
        insts.len(),
        |i: int| retargeted_inst(insts[i], from, to, map@),
    ));
    refill(func, b.0, list);
}

fn target_list(t: &Terminator) -> (r: Vec<BlockId>)
    ensures
        r@ == cfg::succ_list(Some(*t)),
{
    match t {
        Terminator::Jump(target) => vec![*target],
        Terminator::Branch { cond: _, then_target, else_target } => if *then_target
            == *else_target {
            vec![*then_target]
        } else {
            vec![*then_target, *else_target]
        },
        _ => Vec::new(),
    }
}

fn continue_merge(
    func: &mut Function,
    c: Candidate,
    b: Blocks,
    t: &Option<Terminator>,
    map: &ValueMap,
)
    requires
        b.merge < old(func)@.blocks.len(),
    ensures
        final(func)@ == with_continuation(old(func)@, c, b, *t, map@),
        final(func)@.blocks.len() == old(func)@.blocks.len(),
{
    let ghost f = func@;
    if let Some(u) = resolve_terminator(t, map, 1) {
        let list = target_list(&u);
        let n = list.len();
        for k in 0..n
            invariant
                n == list.len(),
                b.merge < f.blocks.len(),
                func@ == all_retargeted(
                    f,
                    list@,
                    c.inner_exit,
                    BlockId(b.merge),
                    map@,
                    k as int,
                ),
                func@.blocks.len() == f.blocks.len(),
        {
            retarget_phis(func, list[k], c.inner_exit, BlockId(b.merge), map);
        }
        end_with(func, b.merge, u);
    }
}

fn end_with(func: &mut Function, b: usize, t: Terminator)
    requires
        b < old(func)@.blocks.len(),
    ensures
        final(func)@ == emit::ended(old(func)@, b, t),
        final(func)@.blocks.len() == old(func)@.blocks.len(),
{
    proof {
        reveal(emit::ended);
    }
    func.set_terminator(BlockId(b), t);
}

fn add_back_edges(func: &mut Function, c: Candidate, k: Caches, b: Blocks, m: Merged)
    ensures
        final(func)@ == with_back_edges(old(func)@, c, k, b, m),
{
    let merge = BlockId(b.merge);
    let none = ValueMap::new();
    retarget_phis(func, c.outer_header, c.outer_latch, merge, &none);
    extend_phi(func, k.cache_true, (merge, m.next_cache_true));
    extend_phi(func, k.cache_false, (merge, m.next_cache_false));
    extend_phi(func, k.initialized_true, (merge, m.next_initialized_true));
    extend_phi(func, k.initialized_false, (merge, m.next_initialized_false));
}

fn copy_insts(func: &Function, b: BlockId) -> (r: Vec<Inst>)
    requires
        func@.has_block(b),
    ensures
        ir::insts_view(r@) == func@.block(b).insts,
{
    let ghost insts = func@.block(b).insts;
    let n = func.blocks[b.0].insts.len();
    let mut list: Vec<Inst> = Vec::new();
    for i in 0..n
        invariant
            func@.has_block(b),
            insts == func@.block(b).insts,
            n == insts.len(),
            list.len() == i,
            forall|j: int| 0 <= j < i ==> #[trigger] list@[j]@ == insts[j],
    {
        assert(func.blocks@[b.0 as int].insts@[i as int]@ == insts[i as int]);
        list.push(func.blocks[b.0].insts[i].clone());
    }
    assert(ir::insts_view(list@) =~= insts);
    list
}

/// Adds the two caches.
pub fn apply_candidate(func: &mut Function, c: Candidate)
    requires
        recognize::candidate_in(old(func)@, c),
    ensures
        final(func)@ == memoized(old(func)@, c),
{
    assert(func.values.len() == func@.values.len());
    let k = add_caches(func, c);
    let b = add_blocks(func);
    add_checks(func, c, k, b);
    let suffix = copy_insts(func, c.inner_exit);
    let t = func.blocks[c.inner_exit.0].terminator;
    assert(t == func@.terminator(c.inner_exit));
    clear_exit(func, c, b);
    let m = add_merge(func, c, k, b);
    let mut map = ValueMap::new();
    map.insert(c.accumulator, m.selected);
    add_suffix(func, b.merge, &suffix, &map);
    continue_merge(func, c, b, &t, &map);
    add_back_edges(func, c, k, b, m);
}

} // verus!
