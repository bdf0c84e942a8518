//! What holds of a loop that keeps a global elsewhere.
use vstd::prelude::*;

use crate::cfg;
use crate::ir::{BlockId, FuncView, InstView, KindView, ValueId, ValueKindView};
use crate::loops::LoopView;
use crate::loops;
use crate::objects;
use crate::pass::regional_global_scalar::access::What;
use crate::pass::regional_global_scalar::access;
use crate::pass::regional_global_scalar::{best_below, fits, region_at, region_from};
use crate::pass::regional_global_scalar::{region_of, RegionView};
use crate::query;

verus! {

/// No chain of element addresses and phis leads from the address to one that is
/// the global's, or that nothing is known of: a parameter, or what was loaded or
/// returned by a call. Some chain ends in an object.
pub open spec fn leads_elsewhere(f: FuncView, v: ValueId, name: Seq<char>) -> bool {
    &&& forall|w: ValueId|
        f.has_value(w) && #[trigger] objects::comes_from(f, v, w) ==> {
            let kind = query::definition(f, w);
            ||| f.value(w).kind is Global && f.value(w).kind != ValueKindView::Global(name)
            ||| kind is Some && (kind->0 is Gep || kind->0 is Phi || kind->0 is Alloca)
        }
    &&& exists|w: ValueId|
        f.has_value(w) && #[trigger] objects::comes_from(f, v, w) && (f.value(w).kind is Global
            || (query::definition(f, w) matches Some(kind) && kind is Alloca))
}

/// The operation is neither a call nor does it zero or copy memory. It stores to
/// the global by its name or stores elsewhere; if `reads` holds, it also loads the
/// global by its name or loads elsewhere.
pub open spec fn touches_by_name(f: FuncView, kind: KindView, name: Seq<char>, reads: bool) -> bool {
    &&& !(kind is Call)
    &&& !(kind is MemZero)
    &&& !(kind is MemCopy)
    &&& kind matches KindView::Store { ptr, .. } ==> f.value(ptr).kind == ValueKindView::Global(
        name,
    ) || leads_elsewhere(f, ptr, name)
    &&& reads ==> (kind matches KindView::Load { ptr } ==> f.value(ptr).kind
        == ValueKindView::Global(name) || leads_elsewhere(f, ptr, name))
}

/// Control enters the blocks from the preheader to the header only.
pub open spec fn is_entered_by(f: FuncView, r: RegionView) -> bool {
    &&& r.blocks.contains(r.header)
    &&& !r.blocks.contains(r.preheader)
    &&& f.has_block(r.preheader)
    &&& forall|b: BlockId| #[trigger] r.blocks.contains(b) ==> f.has_block(b)
    &&& forall|q: BlockId, t: BlockId|
        f.has_block(q) && !r.blocks.contains(q) && r.blocks.contains(t) && #[trigger] cfg::edge(
            f,
            q,
            t,
        ) ==> q == r.preheader && t == r.header
    &&& forall|t: BlockId| #[trigger] cfg::edge(f, r.preheader, t) ==> t == r.header
    &&& cfg::edge(f, r.preheader, r.header)
}

/// Control leaves the blocks from the header to the exit only.
pub open spec fn is_left_by(f: FuncView, r: RegionView) -> bool {
    &&& !r.blocks.contains(r.exit)
    &&& f.has_block(r.exit)
    &&& forall|q: BlockId, t: BlockId|
        r.blocks.contains(q) && !r.blocks.contains(t) && #[trigger] cfg::edge(f, q, t) ==> q
            == r.header && t == r.exit
    &&& cfg::edge(f, r.header, r.exit)
    &&& forall|b: BlockId| #[trigger]
        r.blocks.contains(b) ==> cfg::succ_list(f.terminator(b)).len() > 0
}

proof fn lemma_best(
    f: FuncView,
    blocks: Seq<BlockId>,
    loads: Seq<ValueId>,
    stores: Seq<ValueId>,
    read_only: bool,
    n: int,
)
    requires
        n <= loads.len(),
    ensures
        best_below(f, blocks, loads, stores, read_only, n) matches Some(k) ==> 0 <= k < n && fits(
            f,
            blocks,
            loads,
            stores,
            read_only,
            k,
        ),
    decreases n,
{
    if n > 0 {
        lemma_best(f, blocks, loads, stores, read_only, n - 1);
    }
}

proof fn lemma_from(f: FuncView, list: Seq<LoopView>, read_only: bool, k: int) -> (j: int)
    requires
        0 <= k,
        region_from(f, list, read_only, k) is Some,
    ensures
        0 <= j < list.len(),
        region_at(f, list[j], read_only) == region_from(f, list, read_only, k),
    decreases list.len() - k,
{
    if region_at(f, list[k], read_only) is Some {
        k
    } else {
        lemma_from(f, list, read_only, k + 1)
    }
}

/// Pointers of the right kind are listed.
proof fn lemma_pointers_below(f: FuncView, insts: Seq<InstView>, what: What, n: int, i: int)
    requires
        0 <= i < n <= insts.len(),
        access::pointer_of(insts[i], what) matches Some(p) && access::scalar_global_of(f, p) is Some,
    ensures
        access::pointers_below(f, insts, what, n).contains(access::pointer_of(insts[i], what)->0),
    decreases n,
{
    let p = access::pointer_of(insts[i], what)->0;
    let before = access::pointers_below(f, insts, what, n - 1);
    let all = access::pointers_below(f, insts, what, n);
    if i == n - 1 {
        assert(all[before.len() as int] == p);
    } else {
        lemma_pointers_below(f, insts, what, n - 1, i);
        let k = choose|k: int| 0 <= k < before.len() && before[k] == p;
        assert(all[k] == p);
    }
}

proof fn lemma_pointers_in(
    f: FuncView,
    blocks: Seq<BlockId>,
    what: What,
    n: int,
    b: int,
    i: int,
)
    requires
        0 <= b < n <= blocks.len(),
        0 <= i < f.block(blocks[b]).insts.len(),
        access::pointer_of(f.block(blocks[b]).insts[i], what) matches Some(p)
            && access::scalar_global_of(f, p) is Some,
    ensures
        access::pointers_in(f, blocks, what, n).contains(
            access::pointer_of(f.block(blocks[b]).insts[i], what)->0,
        ),
    decreases n,
{
    let p = access::pointer_of(f.block(blocks[b]).insts[i], what)->0;
    let before = access::pointers_in(f, blocks, what, n - 1);
    let insts = f.block(blocks[n - 1]).insts;
    let here = access::pointers_below(f, insts, what, insts.len() as int);
    let all = access::pointers_in(f, blocks, what, n);
    if b == n - 1 {
        lemma_pointers_below(f, insts, what, insts.len() as int, i);
        let k = choose|k: int| 0 <= k < here.len() && here[k] == p;
        assert(all[before.len() + k] == p);
    } else {
        lemma_pointers_in(f, blocks, what, n - 1, b, i);
        let k = choose|k: int| 0 <= k < before.len() && before[k] == p;
        assert(all[k] == p);
    }
}

/// What is counted is there.
proof fn lemma_named_below(f: FuncView, list: Seq<ValueId>, name: Seq<char>, n: int, k: int)
    requires
        0 <= k < n <= list.len(),
        access::is_named(f, list[k], name),
    ensures
        access::named_below(f, list, name, n) > 0,
    decreases n,
{
    if k < n - 1 {
        lemma_named_below(f, list, name, n - 1, k);
    }
}

/// The edges of a natural loop.
proof fn lemma_loop_edges(f: FuncView, h: BlockId)
    requires
        f.wf(),
        f.has_block(h),
        f.blocks.len() <= usize::MAX,
    ensures
        forall|q: BlockId, t: BlockId|
            f.has_block(q) && !loops::in_loop(f, h, q) && loops::in_loop(f, h, t)
                && #[trigger] cfg::edge(f, q, t) ==> t == h && loops::entering(f, h).contains(q),
{
    let n = f.blocks.len() as int;
    let graph = cfg::pred_lists(f);
    assert forall|q: BlockId, t: BlockId|
        f.has_block(q) && !loops::in_loop(f, h, q) && loops::in_loop(f, h, t)
            && #[trigger] cfg::edge(f, q, t) implies t == h && loops::entering(f, h).contains(
        q,
    ) by {
        cfg::lemma_preds_below(f, t, n, q);
        if t != h {
            let latch = choose|latch: BlockId|
                loops::latches(f, h).contains(latch) && #[trigger] cfg::reaches(
                    graph,
                    latch,
                    t,
                    Some(h),
                );
            let path = choose|path: Seq<BlockId>| cfg::walk(graph, path, latch, t, Some(h));
            let longer = path.push(q);
            assert(graph[t.0 as int] == cfg::preds(f, t)) by {
                assert(path[path.len() - 1] == t);
            }
            assert forall|k: int| 0 <= k < longer.len() - 1 implies graph[(
            #[trigger] longer[k]).0 as int].contains(longer[k + 1]) by {
                if k < path.len() - 1 {
                    assert(path[k] == longer[k] && path[k + 1] == longer[k + 1]);
                } else {
                    assert(longer[k] == t);
                }
            }
            assert(longer.last() == q);
            assert(cfg::walk(graph, longer, latch, q, Some(h)));
            assert(cfg::reaches(graph, latch, q, Some(h)));
        } else {
            loops::lemma_filtered(cfg::preds(f, h), loops::outside_of(f, h));
            assert(loops::outside_of(f, h)(q));
        }
    }
}

/// An edge that leaves the loop is listed.
proof fn lemma_exits_listed(f: FuncView, h: BlockId, k: int, j: int, t: BlockId)
    requires
        0 <= j < k <= loops::loop_blocks(f, h).len(),
        cfg::edge(f, loops::loop_blocks(f, h)[j], t),
        !loops::in_loop(f, h, t),
    ensures
        loops::exits_upto(f, h, k).contains((loops::loop_blocks(f, h)[j], t)),
    decreases k,
{
    let q = loops::loop_blocks(f, h)[j];
    let before = loops::exits_upto(f, h, k - 1);
    let all = loops::exits_upto(f, h, k);
    if j == k - 1 {
        let list = cfg::succ_list(f.terminator(q));
        loops::lemma_filtered(list, loops::outside_of(f, h));
        let kept = list.filter(loops::outside_of(f, h));
        assert(loops::outside_of(f, h)(t));
        assert(kept.contains(t));
        let i = choose|i: int| 0 <= i < kept.len() && kept[i] == t;
        assert(loops::exits_of(f, h, q)[i] == (q, t));
        assert(all[before.len() + i] == (q, t));
    } else {
        lemma_exits_listed(f, h, k - 1, j, t);
        let i = choose|i: int| 0 <= i < before.len() && before[i] == (q, t);
        assert(all[i] == (q, t));
    }
}

/// A loop that keeps a global elsewhere touches it by its name only. No
/// instruction of it is a call, zeroes memory or copies memory. Control enters it
/// from its preheader only, which leads nowhere else. Where it also writes the
/// global it is left from its header to its exit only; where it only reads it,
/// nothing in it stores to the global.
pub proof fn regions_touch_their_global_by_name_only(f: FuncView, read_only: bool, r: RegionView)
    requires
        f.wf(),
        f.blocks.len() <= usize::MAX,
        region_of(f, read_only) == Some(r),
    ensures
        f.value(r.global).kind == ValueKindView::Global(r.name),
        f.value(r.global).ty == crate::ir::Type::Ptr(Box::new(r.ty)),
        forall|b: BlockId, i: int|
            r.blocks.contains(b) && f.has_inst(b, i) ==> touches_by_name(
                f,
                (#[trigger] f.inst(b, i)).kind,
                r.name,
                !read_only,
            ),
        read_only ==> forall|b: BlockId, i: int|
            r.blocks.contains(b) && f.has_inst(b, i) && (#[trigger] f.inst(b, i)).kind is Store
                ==> leads_elsewhere(f, f.inst(b, i).kind->Store_ptr, r.name),
        is_entered_by(f, r),
        !read_only ==> is_left_by(f, r),
        (forall|q: BlockId| f.has_block(q) ==> !#[trigger] cfg::edge(f, q, f.entry))
            ==> !r.blocks.contains(f.entry),
{
    let j = lemma_from(f, loops::loops_of(f), read_only, 0);
    loops::lemma_listed_loop(f, j);
    let l = loops::loops_of(f)[j];
    let h = l.header;
    let n = f.blocks.len() as int;
    loops::lemma_loop_within(f, h);
    let what = if read_only {
        What::Loads
    } else {
        What::Results
    };
    let loads = access::pointers(f, l.blocks, what);
    let stores = access::pointers(f, l.blocks, What::Stores);
    lemma_best(f, l.blocks, loads, stores, read_only, loads.len() as int);
    assert(access::is_disjoint(f, l.blocks, r.name, !read_only));
    assert forall|b: BlockId, i: int|
        r.blocks.contains(b) && f.has_inst(b, i) implies touches_by_name(
        f,
        (#[trigger] f.inst(b, i)).kind,
        r.name,
        !read_only,
    ) by {
        assert(access::inst_is_apart(f, f.inst(b, i), r.name, !read_only));
    }
    if read_only {
        assert forall|b: BlockId, i: int|
            r.blocks.contains(b) && f.has_inst(b, i) && (#[trigger] f.inst(b, i)).kind
                is Store implies leads_elsewhere(f, f.inst(b, i).kind->Store_ptr, r.name) by {
            let ptr = f.inst(b, i).kind->Store_ptr;
            assert(access::inst_is_apart(f, f.inst(b, i), r.name, !read_only));
            if access::is_named(f, ptr, r.name) {
                let at = choose|at: int| 0 <= at < l.blocks.len() && l.blocks[at] == b;
                lemma_pointers_in(f, l.blocks, What::Stores, l.blocks.len() as int, at, i);
                let k = choose|k: int| 0 <= k < stores.len() && stores[k] == ptr;
                lemma_named_below(f, stores, r.name, stores.len() as int, k);
            }
        }
    }
    // Control.
    lemma_loop_edges(f, h);
    let entering = loops::entering(f, h);
    assert(entering.len() == 1 && entering[0] == r.preheader);
    loops::lemma_filtered(cfg::preds(f, h), loops::outside_of(f, h));
    cfg::lemma_preds_below(f, h, n, r.preheader);
    assert(entering.contains(r.preheader));
    assert(f.has_block(r.preheader));
    assert(loops::outside_of(f, h)(r.preheader));
    assert forall|b: BlockId| #[trigger] r.blocks.contains(b) implies f.has_block(b) by {
        let at = choose|at: int| 0 <= at < l.blocks.len() && l.blocks[at] == b;
        assert(l.blocks[at].0 < n);
    }
    assert(l.has(h));
    assert(!l.has(r.preheader));
    assert(cfg::edge(f, r.preheader, h));
    assert forall|t: BlockId| #[trigger] cfg::edge(f, r.preheader, t) implies t == r.header by {
        let list = cfg::succ_list(f.terminator(r.preheader));
        let a = choose|a: int| 0 <= a < list.len() && list[a] == t;
        let b = choose|b: int| 0 <= b < list.len() && list[b] == h;
        assert(a == 0 && b == 0);
    }
    assert forall|q: BlockId, t: BlockId|
        f.has_block(q) && !r.blocks.contains(q) && r.blocks.contains(t) && #[trigger] cfg::edge(
            f,
            q,
            t,
        ) implies q == r.preheader && t == r.header by {
        assert(!l.has(q));
        assert(l.has(t));
        assert(!loops::in_loop(f, h, q) && loops::in_loop(f, h, t));
        let a = choose|a: int| 0 <= a < entering.len() && entering[a] == q;
        assert(a == 0);
    }
    if !read_only {
        lemma_left(f, l, r);
    }
    if l.has(f.entry) && f.entry != h {
        lemma_entry_outside(f, h);
    }
}

/// The entry is not in a loop whose header is another block.
proof fn lemma_entry_outside(f: FuncView, h: BlockId)
    requires
        f.wf(),
        f.blocks.len() <= usize::MAX,
        f.has_block(h),
        f.entry != h,
    ensures
        !loops::in_loop(f, h, f.entry),
{
    if loops::in_loop(f, h, f.entry) {
        let graph = cfg::pred_lists(f);
        let n = f.blocks.len() as int;
        let latch = choose|latch: BlockId|
            loops::latches(f, h).contains(latch) && #[trigger] cfg::reaches(
                graph,
                latch,
                f.entry,
                Some(h),
            );
        let path = choose|path: Seq<BlockId>| cfg::walk(graph, path, latch, f.entry, Some(h));
        loops::lemma_filtered(cfg::preds(f, h), loops::dominated_by(f, h));
        assert(loops::dominated_by(f, h)(latch));
        let len = path.len() as int;
        let back = Seq::new(path.len(), |k: int| path[len - 1 - k]);
        assert forall|k: int| 0 <= k < back.len() - 1 implies cfg::succ_lists(f)[(
        #[trigger] back[k]).0 as int].contains(back[k + 1]) by {
            let i = len - 2 - k;
            assert(graph[path[i].0 as int].contains(path[i + 1]));
            assert(graph[path[i].0 as int] == cfg::preds(f, path[i]));
            cfg::lemma_preds_below(f, path[i], n, path[i + 1]);
            assert(path[i + 1].0 < graph.len());
        }
        assert forall|k: int| 0 <= k < back.len() implies (#[trigger] back[k]).0
            < cfg::succ_lists(f).len() && back[k] != h by {
            assert(path[len - 1 - k].0 < graph.len());
        }
        assert(back.last() == latch && back[0] == f.entry);
        assert(cfg::walk(cfg::succ_lists(f), back, f.entry, latch, None));
        assert(back.contains(h));
    }
}

/// The edges that leave the loop are edges.
proof fn lemma_exits_are_edges(f: FuncView, h: BlockId, k: int, i: int)
    requires
        0 <= k <= loops::loop_blocks(f, h).len(),
        0 <= i < loops::exits_upto(f, h, k).len(),
    ensures
        cfg::edge(f, loops::exits_upto(f, h, k)[i].0, loops::exits_upto(f, h, k)[i].1),
    decreases k,
{
    let before = loops::exits_upto(f, h, k - 1);
    let all = loops::exits_upto(f, h, k);
    if i < before.len() {
        lemma_exits_are_edges(f, h, k - 1, i);
        assert(all[i] == before[i]);
    } else {
        let b = loops::loop_blocks(f, h)[k - 1];
        let list = cfg::succ_list(f.terminator(b));
        loops::lemma_filtered(list, loops::outside_of(f, h));
        let kept = list.filter(loops::outside_of(f, h));
        let t = kept[i - before.len()];
        assert(kept.contains(t));
        assert(all[i] == (b, t));
    }
}

/// A block of the loop leads to another.
proof fn lemma_goes_on(f: FuncView, h: BlockId, b: BlockId)
    requires
        f.wf(),
        f.blocks.len() <= usize::MAX,
        f.has_block(h),
        f.has_block(b),
        b != h,
        loops::in_loop(f, h, b),
    ensures
        cfg::succ_list(f.terminator(b)).len() > 0,
{
    let graph = cfg::pred_lists(f);
    let n = f.blocks.len() as int;
    let latch = choose|latch: BlockId|
        loops::latches(f, h).contains(latch) && #[trigger] cfg::reaches(graph, latch, b, Some(h));
    let path = choose|path: Seq<BlockId>| cfg::walk(graph, path, latch, b, Some(h));
    loops::lemma_filtered(cfg::preds(f, h), loops::dominated_by(f, h));
    if path.len() == 1 {
        cfg::lemma_preds_below(f, h, n, latch);
        assert(cfg::edge(f, b, h));
    } else {
        let i = path.len() - 2;
        assert(graph[path[i].0 as int].contains(path[i + 1]));
        assert(graph[path[i].0 as int] == cfg::preds(f, path[i]));
        cfg::lemma_preds_below(f, path[i], n, b);
        assert(cfg::edge(f, b, path[i]));
    }
}

proof fn lemma_left(f: FuncView, l: LoopView, r: RegionView)
    requires
        f.wf(),
        f.blocks.len() <= usize::MAX,
        f.has_block(l.header),
        l == loops::loop_at(f, l.header),
        region_at(f, l, false) == Some(r),
    ensures
        is_left_by(f, r),
{
    let h = l.header;
    loops::lemma_loop_within(f, h);
    crate::pass::idiom_laws::lemma_exits_outside(f, h, l.blocks.len() as int);
    assert(l.exit_edges[0] == (r.header, r.exit));
    assert(loops::outside_of(f, h)(r.exit));
    assert(!l.has(r.exit));
    assert forall|q: BlockId, t: BlockId|
        r.blocks.contains(q) && !r.blocks.contains(t) && #[trigger] cfg::edge(f, q, t) implies q
        == r.header && t == r.exit by {
        let at = choose|at: int| 0 <= at < l.blocks.len() && l.blocks[at] == q;
        query::lemma_terminator_wf(f, q);
        crate::pass::simplify_cfg::meaning_laws::lemma_targets(f, q);
        crate::pass::simplify_cfg::threading_laws::lemma_succ(f.terminator(q), t);
        assert(f.has_block(t));
        assert(!l.has(t));
        lemma_exits_listed(f, h, l.blocks.len() as int, at, t);
        let i = choose|i: int| 0 <= i < l.exit_edges.len() && l.exit_edges[i] == (q, t);
        assert(i == 0);
    }
    lemma_exits_are_edges(f, h, l.blocks.len() as int, 0);
    assert forall|b: BlockId| #[trigger] r.blocks.contains(b) implies cfg::succ_list(
        f.terminator(b),
    ).len() > 0 by {
        let at = choose|at: int| 0 <= at < l.blocks.len() && l.blocks[at] == b;
        assert(l.blocks[at].0 < f.blocks.len());
        if b != h {
            assert(l.has(b));
            lemma_goes_on(f, h, b);
        }
    }
}

/// The address of the global is a value of the function.
pub proof fn lemma_global_exists(f: FuncView, read_only: bool, r: RegionView)
    requires
        f.wf(),
        f.blocks.len() <= usize::MAX,
        region_of(f, read_only) == Some(r),
    ensures
        f.has_value(r.global),
{
    let j = lemma_from(f, loops::loops_of(f), read_only, 0);
    loops::lemma_listed_loop(f, j);
    let blocks = loops::loops_of(f)[j].blocks;
    let what = if read_only {
        What::Loads
    } else {
        What::Results
    };
    let loads = access::pointers(f, blocks, what);
    let stores = access::pointers(f, blocks, What::Stores);
    lemma_best(f, blocks, loads, stores, read_only, loads.len() as int);
    lemma_pointers_exist(f, blocks, what, blocks.len() as int);
}

proof fn lemma_pointers_exist(f: FuncView, blocks: Seq<BlockId>, what: What, n: int)
    requires
        f.wf(),
        0 <= n <= blocks.len(),
        forall|k: int| 0 <= k < blocks.len() ==> f.has_block(#[trigger] blocks[k]),
    ensures
        access::exist(f, access::pointers_in(f, blocks, what, n)),
    decreases n,
{
    if n > 0 {
        lemma_pointers_exist(f, blocks, what, n - 1);
        let b = blocks[n - 1];
        lemma_pointers_here(f, b, what, f.block(b).insts.len() as int);
    }
}

proof fn lemma_pointers_here(f: FuncView, b: BlockId, what: What, n: int)
    requires
        f.wf(),
        f.has_block(b),
        0 <= n <= f.block(b).insts.len(),
    ensures
        access::exist(f, access::pointers_below(f, f.block(b).insts, what, n)),
    decreases n,
{
    if n > 0 {
        lemma_pointers_here(f, b, what, n - 1);
        assert(f.has_inst(b, n - 1));
        query::lemma_inst_wf(f, b, n - 1);
    }
}

} // verus!
