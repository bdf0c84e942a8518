//! Values that are stored before a loop and only read in it.
use vstd::prelude::*;

use crate::cfg::{ControlFlowGraph, Dominators};
use crate::edit;
use crate::emit;
use crate::emit::refill;
use crate::ir;
use crate::ir::{
    BlockId, FuncView, Function, Inst, InstKind, InstView, KindView, Type, ValueId,
};
use crate::loops;
use crate::loops::{InductionVariable, LoopInfo, LoopView, NaturalLoop};
use crate::pass::loop_idiom::is_loop_invariant;
use crate::pass::loop_idiom;
use crate::pass::loop_memory_promotion::path;
use crate::pass::loop_memory_promotion::path::{
    access_path, header_induction, leads_to, loop_memory_is_disjoint, AccessPath, AccessPathView,
};
use crate::pass::regional_global_scalar::access;
use crate::pass::regional_global_scalar::access::only_loads_and_stores;
use crate::query;
use crate::query::{has_type, value_available_at_block};
use crate::util;
use crate::util::{rewrite_function_uses, ValueMap};
use crate::verify;

verus! {

pub const MAX_BLOCKS: usize = 1024;

pub const MAX_VALUES: usize = 16384;

pub const MAX_PROMOTIONS_PER_FUNCTION: usize = 8;

// ---------------------------------------------------------------------------
// Mathematical model
// ---------------------------------------------------------------------------

pub open spec fn is_small(f: FuncView) -> bool {
    f.blocks.len() <= MAX_BLOCKS && f.values.len() <= MAX_VALUES
}

/// The instruction may write memory.
pub open spec fn writes(kind: KindView) -> bool {
    kind is Store || access::is_opaque(kind)
}

/// An instruction, from place `i` on, may write memory.
pub open spec fn written_from(insts: Seq<InstView>, i: int) -> bool {
    exists|j: int| i <= j < insts.len() && writes((#[trigger] insts[j]).kind)
}

/// The instruction reads the element as a value of the type.
pub open spec fn reads_element(f: FuncView, inst: InstView, path: AccessPathView, ty: Type) -> bool {
    match (inst.result, inst.kind) {
        (Some(v), KindView::Load { ptr }) => path::path_of(f, ptr) == Some(path) && f.value(v).ty
            == ty,
        _ => false,
    }
}

/// The blocks read the element as a value of the type.
pub open spec fn is_read(f: FuncView, blocks: Seq<BlockId>, path: AccessPathView, ty: Type) -> bool {
    exists|b: BlockId, i: int|
        blocks.contains(b) && f.has_inst(b, i) && reads_element(
            f,
            #[trigger] f.inst(b, i),
            path,
            ty,
        )
}

/// The store at place `i` of the preheader serves all reads of the element in the
/// loop, and there are such reads.
pub open spec fn store_fits(
    f: FuncView,
    l: LoopView,
    iv: InductionVariable,
    preheader: BlockId,
    i: int,
) -> bool {
    let insts = f.block(preheader).insts;
    match insts[i].kind {
        KindView::Store { ptr, value } => match path::path_of(f, ptr) {
            Some(p) => {
                &&& loop_idiom::is_invariant(f, l, ptr)
                &&& query::available_at(f, ptr, preheader)
                &&& query::available_at(f, value, l.header)
                &&& !written_from(insts, i + 1)
                &&& path::loop_fits(f, l, iv, p, false)
                &&& is_read(f, l.blocks, p, f.value(value).ty)
            },
            None => false,
        },
        _ => false,
    }
}

/// The last store among the first `n` instructions of the preheader that serves
/// the loop.
pub open spec fn store_below(
    f: FuncView,
    l: LoopView,
    iv: InductionVariable,
    preheader: BlockId,
    n: int,
) -> Option<int>
    decreases n,
{
    if n <= 0 {
        None
    } else if store_fits(f, l, iv, preheader, n - 1) {
        Some(n - 1)
    } else {
        store_below(f, l, iv, preheader, n - 1)
    }
}

/// The store before a loop that serves its reads: the element and the value.
pub open spec fn store_of(f: FuncView, l: LoopView) -> Option<(AccessPathView, ValueId)> {
    match (l.dedicated_preheader, path::counter_of(f, l)) {
        (Some(preheader), Some(iv)) => if l.unique_latch() is Some && access::has_plain_effects(
            f,
            l.blocks,
        ) {
            let insts = f.block(preheader).insts;
            match store_below(f, l, iv, preheader, insts.len() as int) {
                Some(i) => match insts[i].kind {
                    KindView::Store { ptr, value } => match path::path_of(f, ptr) {
                        Some(p) => Some((p, value)),
                        None => None,
                    },
                    _ => None,
                },
                None => None,
            }
        } else {
            None
        },
        _ => None,
    }
}

/// The instructions `now` without those that read the element in `own`.
pub open spec fn reads_dropped(
    f: FuncView,
    own: Seq<InstView>,
    now: Seq<InstView>,
    path: AccessPathView,
    ty: Type,
) -> Seq<InstView> {
    Seq::new(
        own.len(),
        |i: int|
            if reads_element(f, own[i], path, ty) {
                edit::nop()
            } else {
                now[i]
            },
    )
}

/// The map with the results of the reads among the first `n` instructions.
pub open spec fn reads_mapped(
    f: FuncView,
    insts: Seq<InstView>,
    path: AccessPathView,
    v: ValueId,
    map: Map<ValueId, ValueId>,
    n: int,
) -> Map<ValueId, ValueId>
    decreases n,
{
    if n <= 0 {
        map
    } else {
        let before = reads_mapped(f, insts, path, v, map, n - 1);
        if reads_element(f, insts[n - 1], path, f.value(v).ty) {
            before.insert(insts[n - 1].result->0, v)
        } else {
            before
        }
    }
}

/// What has been forwarded: the function without the reads, what stands for
/// their results, and how many stores serve.
pub struct Forwarding {
    pub func: FuncView,
    pub map: Map<ValueId, ValueId>,
    pub count: nat,
}

/// The first `k` blocks of the list without the reads.
pub open spec fn blocks_forwarded(
    f: FuncView,
    blocks: Seq<BlockId>,
    path: AccessPathView,
    v: ValueId,
    s: Forwarding,
    k: int,
) -> Forwarding
    decreases k,
{
    if k <= 0 {
        s
    } else {
        let before = blocks_forwarded(f, blocks, path, v, s, k - 1);
        let b = blocks[k - 1];
        let own = f.block(b).insts;
        Forwarding {
            func: emit::refilled(
                before.func,
                b.0,
                reads_dropped(f, own, before.func.block(b).insts, path, f.value(v).ty),
            ),
            map: reads_mapped(f, own, path, v, before.map, own.len() as int),
            count: before.count,
        }
    }
}

/// What is forwarded into the first `n` loops.
pub open spec fn loops_forwarded(f: FuncView, list: Seq<LoopView>, n: int) -> Forwarding
    decreases n,
{
    if n <= 0 {
        Forwarding { func: f, map: Map::empty(), count: 0 }
    } else {
        let before = loops_forwarded(f, list, n - 1);
        if before.count >= MAX_PROMOTIONS_PER_FUNCTION {
            before
        } else {
            match store_of(f, list[n - 1]) {
                Some((p, v)) => {
                    let blocks = list[n - 1].blocks;
                    Forwarding {
                        count: before.count + 1,
                        ..blocks_forwarded(f, blocks, p, v, before, blocks.len() as int)
                    }
                },
                None => before,
            }
        }
    }
}

/// The function with the stored values in place of the reads.
pub open spec fn reads_served(f: FuncView) -> FuncView {
    let list = loops::loops_of(f);
    let s = loops_forwarded(f, list, list.len() as int);
    util::map_uses(s.func, util::resolver(s.map, s.func.values.len()))
}

/// Some store serves a loop.
pub open spec fn has_served_reads(f: FuncView) -> bool {
    let list = loops::loops_of(f);
    loops_forwarded(f, list, list.len() as int).count > 0
}

/// The effect on a function. A result that would not be valid is discarded.
pub open spec fn stores_forwarded(f: FuncView) -> FuncView {
    if is_small(f) && has_served_reads(f) && verify::valid(reads_served(f)) {
        reads_served(f)
    } else {
        f
    }
}

// ---------------------------------------------------------------------------
// Executable functions
// ---------------------------------------------------------------------------

pub fn is_small_function(func: &Function) -> (r: bool)
    ensures
        r == is_small(func@),
{
    assert(func.blocks.len() == func@.blocks.len());
    assert(func.values.len() == func@.values.len());
    func.blocks.len() <= MAX_BLOCKS && func.values.len() <= MAX_VALUES
}

fn may_write(kind: &InstKind) -> (r: bool)
    ensures
        r == writes(kind@),
{
    match kind {
        InstKind::Store { .. } => true,
        InstKind::Call { .. } => true,
        InstKind::MemZero { .. } => true,
        InstKind::MemCopy { .. } => true,
        _ => false,
    }
}

fn preheader_has_later_clobber(func: &Function, b: BlockId, i: usize) -> (r: bool)
    requires
        func@.has_block(b),
        i < func@.block(b).insts.len(),
    ensures
        r == written_from(func@.block(b).insts, i + 1),
{
    let ghost insts = func@.block(b).insts;
    let n = func.blocks[b.0].insts.len();
    for j in i + 1..n
        invariant
            func@.has_block(b),
            insts == func@.block(b).insts,
            n == insts.len(),
            i < j,
            forall|k: int| i < k < j ==> !writes((#[trigger] insts[k]).kind),
    {
        let inst = &func.blocks[b.0].insts[j];
        assert(inst@ == insts[j as int]);
        if may_write(&inst.kind) {
            return true;
        }
    }
    false
}

fn element_is_read(func: &Function, inst: &Inst, path: &AccessPath, ty: &Type) -> (r: bool)
    requires
        func@.wf(),
        edit::inst_wf(inst@, func@.blocks.len(), func@.values.len()),
    ensures
        r == reads_element(func@, inst@, path@, *ty),
{
    match (inst.result, &inst.kind) {
        (Some(v), InstKind::Load { ptr }) => leads_to(func, *ptr, path) && has_type(func, v, ty),
        _ => false,
    }
}

fn loop_reads(func: &Function, blocks: &Vec<BlockId>, path: &AccessPath, ty: &Type) -> (r: bool)
    requires
        func@.wf(),
        forall|k: int| 0 <= k < blocks.len() ==> func@.has_block(#[trigger] blocks@[k]),
    ensures
        r == is_read(func@, blocks@, path@, *ty),
{
    let ghost f = func@;
    let n = blocks.len();
    for k in 0..n
        invariant
            func@ == f,
            f.wf(),
            n == blocks.len(),
            forall|k: int| 0 <= k < blocks.len() ==> f.has_block(#[trigger] blocks@[k]),
            forall|b: BlockId, j: int|
                access::seen(f, blocks@, k as int, 0, b, j) ==> !reads_element(
                    f,
                    #[trigger] f.inst(b, j),
                    path@,
                    *ty,
                ),
    {
        let b = blocks[k];
        assert(f.has_block(blocks@[k as int]));
        let count = func.blocks[b.0].insts.len();
        for i in 0..count
            invariant
                func@ == f,
                f.wf(),
                k < blocks.len(),
                b == blocks@[k as int],
                f.has_block(b),
                count == f.block(b).insts.len(),
                forall|c: BlockId, j: int|
                    access::seen(f, blocks@, k as int, i as int, c, j) ==> !reads_element(
                        f,
                        #[trigger] f.inst(c, j),
                        path@,
                        *ty,
                    ),
        {
            let inst = &func.blocks[b.0].insts[i];
            assert(inst@ == f.inst(b, i as int));
            proof {
                query::lemma_inst_wf(f, b, i as int);
            }
            if element_is_read(func, inst, path, ty) {
                assert(blocks@.contains(b));
                assert(reads_element(f, f.inst(b, i as int), path@, *ty));
                return true;
            }
            assert forall|c: BlockId, j: int|
                access::seen(f, blocks@, k as int, i + 1, c, j) implies !reads_element(
                f,
                #[trigger] f.inst(c, j),
                path@,
                *ty,
            ) by {
                if !access::seen(f, blocks@, k as int, i as int, c, j) {
                    assert(c == b && j == i);
                }
            }
        }
        assert forall|c: BlockId, j: int|
            access::seen(f, blocks@, k + 1, 0, c, j) implies !reads_element(
            f,
            #[trigger] f.inst(c, j),
            path@,
            *ty,
        ) by {
            assert(access::seen(f, blocks@, k as int, count as int, c, j));
        }
    }
    assert forall|b: BlockId, i: int|
        blocks@.contains(b) && f.has_inst(b, i) implies !reads_element(
        f,
        #[trigger] f.inst(b, i),
        path@,
        *ty,
    ) by {
        let m = choose|m: int| 0 <= m < blocks@.len() && blocks@[m] == b;
        assert(blocks@[m] == b);
        assert(access::seen(f, blocks@, n as int, 0, b, i));
    }
    false
}

pub open spec fn served_view(r: Option<(AccessPath, ValueId)>) -> Option<(AccessPathView, ValueId)> {
    match r {
        Some((p, v)) => Some((p@, v)),
        None => None,
    }
}

/// The element and the value of the store, where it serves the loop.
pub open spec fn served_by(
    f: FuncView,
    l: LoopView,
    iv: InductionVariable,
    preheader: BlockId,
    i: int,
) -> Option<(AccessPathView, ValueId)> {
    if store_fits(f, l, iv, preheader, i) {
        match f.block(preheader).insts[i].kind {
            KindView::Store { ptr, value } => match path::path_of(f, ptr) {
                Some(p) => Some((p, value)),
                None => None,
            },
            _ => None,
        }
    } else {
        None
    }
}

fn match_store(
    func: &Function,
    dom: &Dominators,
    l: &NaturalLoop,
    iv: InductionVariable,
    preheader: BlockId,
    i: usize,
) -> (r: Option<(AccessPath, ValueId)>)
    requires
        func@.wf(),
        dom.of(func@),
        l@.within(func@.blocks.len()),
        func@.has_block(preheader),
        i < func@.block(preheader).insts.len(),
    ensures
        served_view(r) == served_by(func@, l@, iv, preheader, i as int),
        r is Some <==> store_fits(func@, l@, iv, preheader, i as int),
        r matches Some((p, v)) ==> path::path_wf(func@, p@) && func@.has_value(v),
{
    let ghost f = func@;
    let inst = &func.blocks[preheader.0].insts[i];
    assert(inst@ == f.inst(preheader, i as int));
    proof {
        query::lemma_inst_wf(f, preheader, i as int);
    }
    match &inst.kind {
        InstKind::Store { ptr, value } => {
            let (ptr, value) = (*ptr, *value);
            let p = access_path(func, ptr)?;
            if !is_loop_invariant(func, l, ptr) || !value_available_at_block(
                func,
                dom,
                ptr,
                preheader,
            ) || !value_available_at_block(func, dom, value, l.header)
                || preheader_has_later_clobber(func, preheader, i) {
                return None;
            }
            if !loop_memory_is_disjoint(func, dom, l, iv, &p, false) {
                return None;
            }
            assert(forall|k: int|
                0 <= k < l.blocks.len() ==> f.has_block(#[trigger] l.blocks@[k])) by {
                assert forall|k: int| 0 <= k < l.blocks.len() implies f.has_block(
                    #[trigger] l.blocks@[k],
                ) by {
                    assert(l@.blocks[k].0 < f.blocks.len());
                }
            }
            assert(func.values@[value.0 as int]@ == f.value(value));
            if loop_reads(func, &l.blocks, &p, &func.values[value.0].ty) {
                Some((p, value))
            } else {
                None
            }
        },
        _ => None,
    }
}

fn find_store(func: &Function, dom: &Dominators, l: &NaturalLoop) -> (r: Option<
    (AccessPath, ValueId),
>)
    requires
        func@.wf(),
        dom.of(func@),
        l@.within(func@.blocks.len()),
    ensures
        served_view(r) == store_of(func@, l@),
        r matches Some((p, v)) ==> path::path_wf(func@, p@) && func@.has_value(v),
{
    let ghost f = func@;
    let preheader = l.dedicated_preheader?;
    let iv = header_induction(func, l)?;
    assert(forall|k: int| 0 <= k < l.blocks.len() ==> f.has_block(#[trigger] l.blocks@[k])) by {
        assert forall|k: int| 0 <= k < l.blocks.len() implies f.has_block(
            #[trigger] l.blocks@[k],
        ) by {
            assert(l@.blocks[k].0 < f.blocks.len());
        }
    }
    if l.unique_latch().is_none() || !only_loads_and_stores(func, &l.blocks) {
        return None;
    }
    let mut i = func.blocks[preheader.0].insts.len();
    while i > 0
        invariant
            func@ == f,
            f.wf(),
            dom.of(f),
            l@.within(f.blocks.len()),
            f.has_block(preheader),
            i <= f.block(preheader).insts.len(),
            l@.dedicated_preheader == Some(preheader),
            path::counter_of(f, l@) == Some(iv),
            l@.unique_latch() is Some,
            access::has_plain_effects(f, l@.blocks),
            store_below(f, l@, iv, preheader, f.block(preheader).insts.len() as int)
                == store_below(f, l@, iv, preheader, i as int),
        decreases i,
    {
        i = i - 1;
        if let Some(found) = match_store(func, dom, l, iv, preheader, i) {
            return Some(found);
        }
    }
    None
}

fn drop_reads(
    func: &Function,
    now: &Function,
    b: BlockId,
    path: &AccessPath,
    v: ValueId,
    map: &mut ValueMap,
) -> (r: Vec<Inst>)
    requires
        func@.wf(),
        func@.has_block(b),
        func@.has_value(v),
        now@.has_block(b),
        now@.block(b).insts.len() == func@.block(b).insts.len(),
    ensures
        ir::insts_view(r@) == reads_dropped(
            func@,
            func@.block(b).insts,
            now@.block(b).insts,
            path@,
            func@.value(v).ty,
        ),
        final(map)@ == reads_mapped(
            func@,
            func@.block(b).insts,
            path@,
            v,
            old(map)@,
            func@.block(b).insts.len() as int,
        ),
{
    let ghost f = func@;
    let ghost own = f.block(b).insts;
    let ghost current = now@.block(b).insts;
    let ghost start = map@;
    let ghost ty = f.value(v).ty;
    let mut list: Vec<Inst> = Vec::new();
    let n = func.blocks[b.0].insts.len();
    for i in 0..n
        invariant
            func@ == f,
            f.wf(),
            f.has_block(b),
            f.has_value(v),
            ty == f.value(v).ty,
            own == f.block(b).insts,
            now@.has_block(b),
            current == now@.block(b).insts,
            n == own.len(),
            n == current.len(),
            start == old(map)@,
            list.len() == i,
            forall|j: int|
                0 <= j < i ==> (#[trigger] list@[j])@ == (if reads_element(
                    f,
                    own[j],
                    path@,
                    ty,
                ) {
                    edit::nop()
                } else {
                    current[j]
                }),
            map@ == reads_mapped(f, own, path@, v, start, i as int),
    {
        let inst = &func.blocks[b.0].insts[i];
        assert(inst@ == f.inst(b, i as int));
        proof {
            query::lemma_inst_wf(f, b, i as int);
        }
        assert(func.values@[v.0 as int]@ == f.value(v));
        assert(func.values.len() == f.values.len());
        let there = &now.blocks[b.0].insts[i];
        assert(there@ == current[i as int]);
        if element_is_read(func, inst, path, &func.values[v.0].ty) {
            if let Some(r) = inst.result {
                map.insert(r, v);
            }
            list.push(Inst { result: None, kind: InstKind::Nop });
        } else {
            list.push(there.clone());
        }
    }
    assert(ir::insts_view(list@) =~= reads_dropped(f, own, current, path@, ty));
    list
}

/// The functions have blocks of the same sizes.
pub open spec fn same_sizes(f: FuncView, g: FuncView) -> bool {
    &&& g.blocks.len() == f.blocks.len()
    &&& g.values.len() == f.values.len()
    &&& forall|b: int|
        0 <= b < f.blocks.len() ==> (#[trigger] g.blocks[b]).insts.len() == f.blocks[b].insts.len()
}

fn forward_into(
    func: &mut Function,
    source: &Function,
    blocks: &Vec<BlockId>,
    path: &AccessPath,
    v: ValueId,
    map: &mut ValueMap,
    Ghost(count): Ghost<nat>,
)
    requires
        source@.wf(),
        source@.has_value(v),
        same_sizes(source@, old(func)@),
        forall|k: int| 0 <= k < blocks.len() ==> source@.has_block(#[trigger] blocks@[k]),
    ensures
        ({
            let s = blocks_forwarded(
                source@,
                blocks@,
                path@,
                v,
                (Forwarding { func: old(func)@, map: old(map)@, count }),
                blocks.len() as int,
            );
            final(func)@ == s.func && final(map)@ == s.map && s.count == count
        }),
        same_sizes(source@, final(func)@),
{
    let ghost f = source@;
    let ghost start = Forwarding { func: func@, map: map@, count };
    let n = blocks.len();
    for k in 0..n
        invariant
            source@ == f,
            f.wf(),
            f.has_value(v),
            same_sizes(f, func@),
            n == blocks.len(),
            start == (Forwarding { func: old(func)@, map: old(map)@, count }),
            forall|k: int| 0 <= k < blocks.len() ==> f.has_block(#[trigger] blocks@[k]),
            (Forwarding { func: func@, map: map@, count }) == blocks_forwarded(
                f,
                blocks@,
                path@,
                v,
                start,
                k as int,
            ),
    {
        let b = blocks[k];
        assert(f.has_block(blocks@[k as int]));
        assert(func@.blocks[b.0 as int].insts.len() == f.blocks[b.0 as int].insts.len());
        let list = drop_reads(source, func, b, path, v, map);
        assert(ir::insts_view(list@).len() == f.block(b).insts.len());
        let ghost before = func@;
        refill(func, b.0, list);
        assert forall|c: int| 0 <= c < f.blocks.len() implies (
        #[trigger] func@.blocks[c]).insts.len() == f.blocks[c].insts.len() by {
            if c == b.0 {
                assert(func@.block(b).insts == ir::insts_view(list@));
            } else {
                assert(func@.blocks[c] == before.blocks[c]);
            }
        }
    }
}

fn forward_reads(func: &mut Function) -> (r: bool)
    requires
        old(func)@.wf(),
    ensures
        r == has_served_reads(old(func)@),
        r ==> final(func)@ == reads_served(old(func)@),
        !r ==> final(func)@ == old(func)@,
{
    let ghost f = func@;
    let source = func.clone();
    let graph = ControlFlowGraph::new(&source);
    let dom = Dominators::new(&source, &graph);
    let info = LoopInfo::new(&source, &graph, &dom);
    let list = info.loops();
    let ghost views = loops::loops_of(f);
    let n = list.len();
    assert(views.len() == n);
    let mut map = ValueMap::new();
    let mut count: usize = 0;
    for k in 0..n
        invariant
            source@ == f,
            f.wf(),
            dom.of(f),
            n == list.len(),
            views == loops::loops_of(f),
            views == loops::loops_view(list@),
            views.len() == n,
            same_sizes(f, func@),
            count <= MAX_PROMOTIONS_PER_FUNCTION,
            count == 0 ==> func@ == f,
            (Forwarding { func: func@, map: map@, count: count as nat }) == loops_forwarded(
                f,
                views,
                k as int,
            ),
    {
        assert(views[k as int] == list@[k as int]@);
        assert(source.blocks.len() == f.blocks.len());
        proof {
            loops::lemma_listed_loop(f, k as int);
        }
        if count < MAX_PROMOTIONS_PER_FUNCTION {
            let l = &list[k];
            if let Some((p, v)) = find_store(&source, &dom, l) {
                assert(forall|j: int|
                    0 <= j < l.blocks.len() ==> f.has_block(#[trigger] l.blocks@[j])) by {
                    assert forall|j: int| 0 <= j < l.blocks.len() implies f.has_block(
                        #[trigger] l.blocks@[j],
                    ) by {
                        assert(l@.blocks[j].0 < f.blocks.len());
                    }
                }
                forward_into(func, &source, &l.blocks, &p, v, &mut map, Ghost(count as nat));
                count = count + 1;
            }
        }
    }
    if count == 0 {
        return false;
    }
    rewrite_function_uses(func, &map);
    true
}

/// Forwards values that are stored before loops to the reads in them.
pub fn forward_preheader_stores_into_loops(func: &mut Function)
    requires
        old(func)@.wf(),
    ensures
        final(func)@ == stores_forwarded(old(func)@),
        final(func)@.wf(),
{
    if !is_small_function(func) {
        return;
    }
    let before = func.clone();
    if forward_reads(func) {
        if func.verify().is_err() {
            *func = before;
        }
    }
}

} // verus!
