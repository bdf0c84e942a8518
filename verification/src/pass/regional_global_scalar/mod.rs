//! Scalar globals that a loop keeps in registers.
//!
//! A loop without calls that touches a scalar global only by its name can keep
//! it elsewhere: where the loop only reads it, one load before the loop serves
//! all reads; where it also writes it, the global lives in a local slot while
//! the loop runs, and is written back when the loop is left.
pub mod access;
pub mod region_laws;

use vstd::prelude::*;

use crate::cfg::{ControlFlowGraph, Dominators};
use crate::edit;
use crate::emit;
use crate::emit::{emit, emit_effect, end_jump, end_with, new_block, refill};
use crate::ir;
use crate::ir::{
    BlockId, FuncView, Function, Inst, InstKind, InstView, KindView, Module, ModuleView,
    Terminator, Type, ValueId, ValueKind, ValueKindView,
};
use crate::loops;
use crate::loops::{LoopInfo, LoopView, NaturalLoop};
use crate::names;
use crate::names::{comes_before, joined};
use crate::pass::edges;
use crate::pass::edges::{redirect, rename_preds};
use crate::pass::regional_global_scalar::access::{
    check_types, collect_pointers, count_named, loop_memory_is_disjoint, only_loads_and_stores,
    scalar_global, What,
};
use crate::query;
use crate::util;
use crate::util::{rewrite_function_uses, ValueMap};
use crate::verify;

verus! {

pub const MAX_READONLY_HOISTS_PER_FUNCTION: usize = 16;

pub const MAX_HOIST_BLOCKS: usize = 1024;

pub const MAX_HOIST_VALUES: usize = 16384;

/// A loop and a scalar global that it can keep elsewhere.
pub struct Region {
    pub name: String,
    pub ty: Type,
    pub global: ValueId,
    pub preheader: BlockId,
    pub header: BlockId,
    pub exit: BlockId,
    pub blocks: Vec<BlockId>,
}

pub struct RegionView {
    pub name: Seq<char>,
    pub ty: Type,
    pub global: ValueId,
    pub preheader: BlockId,
    pub header: BlockId,
    pub exit: BlockId,
    pub blocks: Seq<BlockId>,
}

impl View for Region {
    type V = RegionView;

    open spec fn view(&self) -> RegionView {
        RegionView {
            name: self.name@,
            ty: self.ty,
            global: self.global,
            preheader: self.preheader,
            header: self.header,
            exit: self.exit,
            blocks: self.blocks@,
        }
    }
}

// ---------------------------------------------------------------------------
// Mathematical model: recognition
// ---------------------------------------------------------------------------

/// The global at the pointer, which the loop only reads, more than once: every
/// write of the loop goes to another object.
pub open spec fn is_read_often(
    f: FuncView,
    blocks: Seq<BlockId>,
    loads: Seq<ValueId>,
    stores: Seq<ValueId>,
    name: Seq<char>,
) -> bool {
    &&& access::named_in(f, loads, name) >= 2
    &&& access::named_in(f, stores, name) == 0
    &&& access::is_disjoint(f, blocks, name, false)
}

/// The global at the pointer, which the loop reads and writes.
pub open spec fn is_read_and_written(
    f: FuncView,
    blocks: Seq<BlockId>,
    loads: Seq<ValueId>,
    stores: Seq<ValueId>,
    name: Seq<char>,
    ty: Type,
) -> bool {
    &&& access::named_in(f, stores, name) > 0
    &&& access::all_typed(f, loads, name, ty)
    &&& access::all_typed(f, stores, name, ty)
    &&& access::is_disjoint(f, blocks, name, true)
}

/// The global that the pointer leads to can be kept elsewhere.
pub open spec fn fits(
    f: FuncView,
    blocks: Seq<BlockId>,
    loads: Seq<ValueId>,
    stores: Seq<ValueId>,
    read_only: bool,
    k: int,
) -> bool {
    match access::scalar_global_of(f, loads[k]) {
        Some((name, ty)) => if read_only {
            is_read_often(f, blocks, loads, stores, name)
        } else {
            is_read_and_written(f, blocks, loads, stores, name, ty)
        },
        None => false,
    }
}

/// The name of the global that the pointer leads to.
pub open spec fn name_at(f: FuncView, v: ValueId) -> Seq<char> {
    match access::scalar_global_of(f, v) {
        Some((name, _)) => name,
        None => Seq::empty(),
    }
}

/// The place, among the first `n` loads, of the global that comes first by its
/// name.
pub open spec fn best_below(
    f: FuncView,
    blocks: Seq<BlockId>,
    loads: Seq<ValueId>,
    stores: Seq<ValueId>,
    read_only: bool,
    n: int,
) -> Option<int>
    decreases n,
{
    if n <= 0 {
        None
    } else {
        let best = best_below(f, blocks, loads, stores, read_only, n - 1);
        if fits(f, blocks, loads, stores, read_only, n - 1) && (best is None || names::precedes(
            name_at(f, loads[n - 1]),
            name_at(f, loads[best->0]),
        )) {
            Some(n - 1)
        } else {
            best
        }
    }
}

/// The pointer to the global of a loop that comes first by its name.
pub open spec fn best_in(f: FuncView, blocks: Seq<BlockId>, read_only: bool) -> Option<ValueId> {
    let loads = access::pointers(
        f,
        blocks,
        if read_only {
            What::Loads
        } else {
            What::Results
        },
    );
    let stores = access::pointers(f, blocks, What::Stores);
    match best_below(f, blocks, loads, stores, read_only, loads.len() as int) {
        Some(k) => Some(loads[k]),
        None => None,
    }
}

/// Where a loop that is left by its header only exits to.
pub open spec fn header_exit(l: LoopView) -> Option<BlockId> {
    match l.unique_latch() {
        Some(latch) => if latch != l.header && l.exit_edges.len() == 1 && l.exit_edges[0].0
            == l.header {
            Some(l.exit_edges[0].1)
        } else {
            None
        },
        None => None,
    }
}

/// The loop as one that can keep a global elsewhere.
pub open spec fn region_at(f: FuncView, l: LoopView, read_only: bool) -> Option<RegionView> {
    match (
        l.dedicated_preheader,
        if read_only {
            Some(l.header)
        } else {
            header_exit(l)
        },
    ) {
        (Some(preheader), Some(exit)) => if access::has_plain_effects(f, l.blocks) {
            match best_in(f, l.blocks, read_only) {
                Some(global) => match access::scalar_global_of(f, global) {
                    Some((name, ty)) => Some(
                        RegionView {
                            name,
                            ty,
                            global,
                            preheader,
                            header: l.header,
                            exit,
                            blocks: l.blocks,
                        },
                    ),
                    None => None,
                },
                None => None,
            }
        } else {
            None
        },
        _ => None,
    }
}

pub open spec fn region_from(f: FuncView, list: Seq<LoopView>, read_only: bool, k: int) -> Option<
    RegionView,
>
    decreases list.len() - k,
{
    if k < 0 || k >= list.len() {
        None
    } else {
        match region_at(f, list[k], read_only) {
            Some(r) => Some(r),
            None => region_from(f, list, read_only, k + 1),
        }
    }
}

/// The first loop that can keep a global elsewhere.
pub open spec fn region_of(f: FuncView, read_only: bool) -> Option<RegionView> {
    if read_only && (f.blocks.len() > MAX_HOIST_BLOCKS || f.values.len() > MAX_HOIST_VALUES) {
        None
    } else {
        region_from(f, loops::loops_of(f), read_only, 0)
    }
}

// ---------------------------------------------------------------------------
// Mathematical model: reads
// ---------------------------------------------------------------------------

/// The value is the address of the global of the name.
pub open spec fn is_global(f: FuncView, v: ValueId, name: Seq<char>) -> bool {
    f.value(v).kind == ValueKindView::Global(name)
}

/// The instruction loads the global.
pub open spec fn loads_global(f: FuncView, inst: InstView, name: Seq<char>) -> bool {
    inst.result is Some && match inst.kind {
        KindView::Load { ptr } => is_global(f, ptr, name),
        _ => false,
    }
}

/// The instructions without the loads of the global.
pub open spec fn loads_dropped(f: FuncView, insts: Seq<InstView>, name: Seq<char>) -> Seq<InstView> {
    Seq::new(
        insts.len(),
        |i: int|
            if loads_global(f, insts[i], name) {
                edit::nop()
            } else {
                insts[i]
            },
    )
}

/// The map with the results of the loads of the global among the first `n`
/// instructions.
pub open spec fn loads_mapped(
    f: FuncView,
    insts: Seq<InstView>,
    name: Seq<char>,
    map: Map<ValueId, ValueId>,
    v: ValueId,
    n: int,
) -> Map<ValueId, ValueId>
    decreases n,
{
    if n <= 0 {
        map
    } else {
        let before = loads_mapped(f, insts, name, map, v, n - 1);
        if loads_global(f, insts[n - 1], name) {
            before.insert(insts[n - 1].result->0, v)
        } else {
            before
        }
    }
}

/// The function `f` without the loads of the global in the first `k` blocks of
/// the list, and what stands for their results.
pub open spec fn blocks_read(
    f: FuncView,
    blocks: Seq<BlockId>,
    name: Seq<char>,
    v: ValueId,
    k: int,
) -> (FuncView, Map<ValueId, ValueId>)
    decreases k,
{
    if k <= 0 {
        (f, Map::empty())
    } else {
        let (g, map) = blocks_read(f, blocks, name, v, k - 1);
        let insts = f.block(blocks[k - 1]).insts;
        (
            emit::refilled(g, blocks[k - 1].0, loads_dropped(f, insts, name)),
            loads_mapped(f, insts, name, map, v, insts.len() as int),
        )
    }
}

/// The function with the global read once, before the loop.
pub open spec fn hoisted(f: FuncView, r: RegionView) -> FuncView {
    let v = f.next_value();
    let (g1, map) = blocks_read(f, r.blocks, r.name, v, r.blocks.len() as int);
    let g2 = emit::emitted(g1, r.preheader.0, emit::load(r.global), r.ty);
    util::map_uses(g2, util::resolver(map, g2.values.len()))
}

/// The function after up to `fuel` hoists. A result that would not be valid is
/// discarded.
pub open spec fn hoist_rounds(f: FuncView, fuel: nat) -> FuncView
    decreases fuel,
{
    match region_of(f, true) {
        Some(r) => if fuel > 0 && verify::valid(hoisted(f, r)) {
            hoist_rounds(hoisted(f, r), (fuel - 1) as nat)
        } else {
            f
        },
        None => f,
    }
}

/// The effect on one function.
pub open spec fn loads_hoisted(f: FuncView) -> FuncView {
    hoist_rounds(f, MAX_READONLY_HOISTS_PER_FUNCTION as nat)
}

// ---------------------------------------------------------------------------
// Mathematical model: writes
// ---------------------------------------------------------------------------

/// The access to the slot in place of the global.
pub open spec fn moved_kind(f: FuncView, kind: KindView, name: Seq<char>, slot: ValueId) -> KindView {
    match kind {
        KindView::Load { ptr } => if is_global(f, ptr, name) {
            KindView::Load { ptr: slot }
        } else {
            kind
        },
        KindView::Store { ptr, value } => if is_global(f, ptr, name) {
            KindView::Store { ptr: slot, value }
        } else {
            kind
        },
        _ => kind,
    }
}

pub open spec fn accesses_moved(
    f: FuncView,
    insts: Seq<InstView>,
    name: Seq<char>,
    slot: ValueId,
) -> Seq<InstView> {
    Seq::new(
        insts.len(),
        |i: int|
            InstView {
                result: insts[i].result,
                kind: moved_kind(f, insts[i].kind, name, slot),
            },
    )
}

/// The function `f` with the accesses of the first `k` blocks of the list moved.
pub open spec fn blocks_moved(
    f: FuncView,
    blocks: Seq<BlockId>,
    name: Seq<char>,
    slot: ValueId,
    k: int,
) -> FuncView
    decreases k,
{
    if k <= 0 {
        f
    } else {
        emit::refilled(
            blocks_moved(f, blocks, name, slot, k - 1),
            blocks[k - 1].0,
            accesses_moved(f, f.block(blocks[k - 1]).insts, name, slot),
        )
    }
}

/// The name of the block that writes the global back.
pub open spec fn flush_name(name: Seq<char>) -> Seq<char> {
    "regional."@ + name + ".flush"@
}

/// The function with the global in a local slot while the loop runs.
pub open spec fn promoted(f: FuncView, r: RegionView) -> FuncView {
    let slot = f.next_value();
    let p = r.preheader.0;
    let flush = f.blocks.len() as usize;
    let g1 = blocks_moved(f, r.blocks, r.name, slot, r.blocks.len() as int);
    let g2 = emit::refilled(
        g1,
        r.exit.0,
        edges::preds_renamed(f.block(r.exit).insts, r.header, BlockId(flush)),
    );
    let g3 = emit::emitted(
        g2,
        p,
        KindView::Alloca { ty: r.ty },
        Type::Ptr(Box::new(r.ty)),
    );
    let initial = g3.next_value();
    let g4 = emit::emitted(g3, p, emit::load(r.global), r.ty);
    let g5 = emit::effected(g4, p, emit::store(slot, initial));
    let g6 = emit::block_added(g5, flush_name(r.name));
    let last = g6.next_value();
    let g7 = emit::emitted(g6, flush, emit::load(slot), r.ty);
    let g8 = emit::effected(g7, flush, emit::store(r.global, last));
    let g9 = emit::ended(g8, flush, Terminator::Jump(r.exit));
    match f.terminator(r.header) {
        Some(t) => emit::ended(g9, r.header.0, edges::redirected(t, r.exit, BlockId(flush))),
        None => g9,
    }
}

/// The function after up to `fuel` promotions. A result that would not be valid
/// is discarded.
pub open spec fn promote_rounds(f: FuncView, fuel: nat) -> FuncView
    decreases fuel,
{
    match region_of(f, false) {
        Some(r) => if fuel > 0 && verify::valid(promoted(f, r)) {
            promote_rounds(promoted(f, r), (fuel - 1) as nat)
        } else {
            f
        },
        None => f,
    }
}

/// The effect on one function: as many promotions as there are to make.
pub open spec fn globals_promoted(f: FuncView) -> FuncView {
    promote_rounds(f, usize::MAX as nat)
}

pub open spec fn hoisted_module(m: ModuleView) -> ModuleView {
    ModuleView { funcs: m.funcs.map_values(|f: FuncView| loads_hoisted(f)), ..m }
}

pub open spec fn promoted_module(m: ModuleView) -> ModuleView {
    ModuleView { funcs: m.funcs.map_values(|f: FuncView| globals_promoted(f)), ..m }
}

// ---------------------------------------------------------------------------
// Executable functions: recognition
// ---------------------------------------------------------------------------

fn check_fit(
    func: &Function,
    blocks: &Vec<BlockId>,
    loads: &Vec<ValueId>,
    stores: &Vec<ValueId>,
    read_only: bool,
    k: usize,
) -> (r: bool)
    requires
        func@.wf(),
        forall|k: int| 0 <= k < blocks.len() ==> func@.has_block(#[trigger] blocks@[k]),
        access::exist(func@, loads@),
        access::exist(func@, stores@),
        k < loads.len(),
    ensures
        r == fits(func@, blocks@, loads@, stores@, read_only, k as int),
{
    assert(func@.has_value(loads@[k as int]));
    match scalar_global(func, loads[k]) {
        Some((name, ty)) => if read_only {
            count_named(func, loads, name) >= 2 && count_named(func, stores, name) == 0
                && loop_memory_is_disjoint(func, blocks, name, false)
        } else {
            count_named(func, stores, name) > 0 && check_types(func, loads, name, ty)
                && check_types(func, stores, name, ty) && loop_memory_is_disjoint(
                func,
                blocks,
                name,
                true,
            )
        },
        None => false,
    }
}

fn goes_first(func: &Function, a: ValueId, b: ValueId) -> (r: bool)
    requires
        func@.has_value(a),
        func@.has_value(b),
        access::scalar_global_of(func@, a) is Some,
        access::scalar_global_of(func@, b) is Some,
    ensures
        r == names::precedes(name_at(func@, a), name_at(func@, b)),
{
    match (scalar_global(func, a), scalar_global(func, b)) {
        (Some((x, _)), Some((y, _))) => comes_before(x, y),
        _ => false,
    }
}

fn find_best(func: &Function, blocks: &Vec<BlockId>, read_only: bool) -> (r: Option<ValueId>)
    requires
        func@.wf(),
        forall|k: int| 0 <= k < blocks.len() ==> func@.has_block(#[trigger] blocks@[k]),
    ensures
        r == best_in(func@, blocks@, read_only),
        r matches Some(v) ==> func@.has_value(v),
{
    let ghost f = func@;
    let what = if read_only {
        What::Loads
    } else {
        What::Results
    };
    let loads = collect_pointers(func, blocks, what);
    let stores = collect_pointers(func, blocks, What::Stores);
    let mut best: Option<usize> = None;
    let n = loads.len();
    for k in 0..n
        invariant
            func@ == f,
            f.wf(),
            n == loads.len(),
            forall|k: int| 0 <= k < blocks.len() ==> f.has_block(#[trigger] blocks@[k]),
            access::exist(f, loads@),
            access::exist(f, stores@),
            match best {
                Some(j) => j < k && fits(f, blocks@, loads@, stores@, read_only, j as int)
                    && best_below(f, blocks@, loads@, stores@, read_only, k as int) == Some(
                    j as int,
                ),
                None => best_below(f, blocks@, loads@, stores@, read_only, k as int) is None,
            },
    {
        if check_fit(func, blocks, &loads, &stores, read_only, k) {
            assert(f.has_value(loads@[k as int]));
            let first = match best {
                Some(j) => {
                    assert(f.has_value(loads@[j as int]));
                    goes_first(func, loads[k], loads[j])
                },
                None => true,
            };
            if first {
                best = Some(k);
            }
        }
    }
    match best {
        Some(j) => {
            assert(f.has_value(loads@[j as int]));
            Some(loads[j])
        },
        None => None,
    }
}

pub open spec fn region_view(r: Option<Region>) -> Option<RegionView> {
    match r {
        Some(x) => Some(x@),
        None => None,
    }
}

/// The parts of the region exist.
pub open spec fn region_in(f: FuncView, r: RegionView) -> bool {
    &&& f.has_block(r.preheader)
    &&& f.has_block(r.header)
    &&& f.has_block(r.exit)
    &&& forall|k: int| 0 <= k < r.blocks.len() ==> f.has_block(#[trigger] r.blocks[k])
}

fn find_header_exit(l: &NaturalLoop) -> (r: Option<BlockId>)
    ensures
        r == header_exit(l@),
{
    let latch = l.unique_latch()?;
    if latch != l.header && l.exit_edges.len() == 1 && l.exit_edges[0].0 == l.header {
        Some(l.exit_edges[0].1)
    } else {
        None
    }
}

fn match_region(func: &Function, l: &NaturalLoop, read_only: bool) -> (r: Option<Region>)
    requires
        func@.wf(),
        l@.within(func@.blocks.len()),
    ensures
        region_view(r) == region_at(func@, l@, read_only),
        r matches Some(x) ==> region_in(func@, x@),
{
    let preheader = l.dedicated_preheader?;
    let exit = if read_only {
        l.header
    } else {
        find_header_exit(l)?
    };
    assert(func@.has_block(exit)) by {
        if !read_only {
            assert(l@.exit_edges[0].1.0 < func@.blocks.len());
        }
    }
    if !only_loads_and_stores(func, &l.blocks) {
        return None;
    }
    let global = find_best(func, &l.blocks, read_only)?;
    let (name, ty) = scalar_global(func, global)?;
    Some(
        Region {
            name: name.clone(),
            ty: ty.clone(),
            global,
            preheader,
            header: l.header,
            exit,
            blocks: l.copied_blocks(),
        },
    )
}

fn find_region(func: &Function, read_only: bool) -> (r: Option<Region>)
    requires
        func@.wf(),
    ensures
        region_view(r) == region_of(func@, read_only),
        r matches Some(x) ==> region_in(func@, x@),
{
    let ghost f = func@;
    assert(func.blocks.len() == f.blocks.len());
    assert(func.values.len() == f.values.len());
    if read_only && (func.blocks.len() > MAX_HOIST_BLOCKS || func.values.len()
        > MAX_HOIST_VALUES) {
        return None;
    }
    let graph = ControlFlowGraph::new(func);
    let dom = Dominators::new(func, &graph);
    let info = LoopInfo::new(func, &graph, &dom);
    let list = info.loops();
    let ghost views = loops::loops_of(f);
    let n = list.len();
    assert(views.len() == n);
    for k in 0..n
        invariant
            func@ == f,
            f.wf(),
            n == list.len(),
            views == loops::loops_of(f),
            views == loops::loops_view(list@),
            views.len() == n,
            region_of(f, read_only) == region_from(f, views, read_only, 0),
            region_from(f, views, read_only, 0) == region_from(f, views, read_only, k as int),
    {
        assert(views[k as int] == list@[k as int]@);
        assert(func.blocks.len() == f.blocks.len());
        proof {
            loops::lemma_listed_loop(f, k as int);
        }
        if let Some(r) = match_region(func, &list[k], read_only) {
            return Some(r);
        }
    }
    None
}

// ---------------------------------------------------------------------------
// Executable functions: reads
// ---------------------------------------------------------------------------

fn leads_to(func: &Function, v: ValueId, name: &String) -> (r: bool)
    requires
        func@.has_value(v),
    ensures
        r == is_global(func@, v, name@),
{
    assert(func.values@[v.0 as int]@ == func@.value(v));
    match &func.values[v.0].kind {
        ValueKind::Global(n) => *n == *name,
        _ => false,
    }
}

fn drop_loads(
    func: &Function,
    b: BlockId,
    name: &String,
    map: &mut ValueMap,
    v: ValueId,
) -> (r: Vec<Inst>)
    requires
        func@.wf(),
        func@.has_block(b),
    ensures
        ir::insts_view(r@) == loads_dropped(func@, func@.block(b).insts, name@),
        final(map)@ == loads_mapped(
            func@,
            func@.block(b).insts,
            name@,
            old(map)@,
            v,
            func@.block(b).insts.len() as int,
        ),
{
    let ghost f = func@;
    let ghost insts = f.block(b).insts;
    let ghost start = map@;
    let mut list: Vec<Inst> = Vec::new();
    let n = func.blocks[b.0].insts.len();
    assert(func.values.len() == f.values.len());
    for i in 0..n
        invariant
            func@ == f,
            func.values.len() == f.values.len(),
            f.wf(),
            f.has_block(b),
            insts == f.block(b).insts,
            n == insts.len(),
            start == old(map)@,
            list.len() == i,
            forall|j: int|
                0 <= j < i ==> (#[trigger] list@[j])@ == (if loads_global(f, insts[j], name@) {
                    edit::nop()
                } else {
                    insts[j]
                }),
            map@ == loads_mapped(f, insts, name@, start, v, i as int),
    {
        let inst = &func.blocks[b.0].insts[i];
        assert(inst@ == f.inst(b, i as int));
        proof {
            query::lemma_inst_wf(f, b, i as int);
        }
        let loaded = match &inst.kind {
            InstKind::Load { ptr } => leads_to(func, *ptr, name),
            _ => false,
        };
        match inst.result {
            Some(r) => {
                if loaded {
                    map.insert(r, v);
                    list.push(Inst { result: None, kind: InstKind::Nop });
                } else {
                    list.push(inst.clone());
                }
            },
            None => {
                list.push(inst.clone());
            },
        }
    }
    assert(ir::insts_view(list@) =~= loads_dropped(f, insts, name@));
    list
}

fn hoist_readonly_candidate(func: &mut Function, r: &Region)
    requires
        old(func)@.wf(),
        region_in(old(func)@, r@),
    ensures
        final(func)@ == hoisted(old(func)@, r@),
{
    let source = func.clone();
    let ghost f = func@;
    assert(func.values.len() == f.values.len());
    let v = ValueId(func.values.len());
    let mut map = ValueMap::new();
    let n = r.blocks.len();
    for k in 0..n
        invariant
            source@ == f,
            f.wf(),
            n == r.blocks.len(),
            region_in(f, r@),
            v == f.next_value(),
            func@.blocks.len() == f.blocks.len(),
            func@.values.len() == f.values.len(),
            (func@, map@) == blocks_read(f, r@.blocks, r@.name, v, k as int),
    {
        let b = r.blocks[k];
        assert(f.has_block(r@.blocks[k as int]));
        let list = drop_loads(&source, b, &r.name, &mut map, v);
        refill(func, b.0, list);
    }
    emit(func, r.preheader.0, InstKind::Load { ptr: r.global }, r.ty.clone());
    rewrite_function_uses(func, &map);
}

/// Hoists the loads of scalar globals out of the loops of a function.
pub fn hoist_function(func: &mut Function)
    requires
        old(func)@.wf(),
    ensures
        final(func)@ == loads_hoisted(old(func)@),
        final(func)@.wf(),
{
    let ghost f = func@;
    let mut left: usize = MAX_READONLY_HOISTS_PER_FUNCTION;
    let mut on = true;
    while on && left > 0
        invariant
            func@.wf(),
            on ==> loads_hoisted(f) == hoist_rounds(func@, left as nat),
            !on ==> loads_hoisted(f) == func@,
        decreases left,
    {
        left = left - 1;
        match find_region(func, true) {
            Some(r) => {
                let before = func.clone();
                hoist_readonly_candidate(func, &r);
                if func.verify().is_err() {
                    *func = before;
                    on = false;
                }
            },
            None => {
                on = false;
            },
        }
    }
}

// ---------------------------------------------------------------------------
// Executable functions: writes
// ---------------------------------------------------------------------------

fn move_accesses(func: &Function, b: BlockId, name: &String, slot: ValueId) -> (r: Vec<Inst>)
    requires
        func@.wf(),
        func@.has_block(b),
    ensures
        ir::insts_view(r@) == accesses_moved(func@, func@.block(b).insts, name@, slot),
{
    let ghost f = func@;
    let ghost insts = f.block(b).insts;
    let mut list: Vec<Inst> = Vec::new();
    let n = func.blocks[b.0].insts.len();
    for i in 0..n
        invariant
            func@ == f,
            f.wf(),
            f.has_block(b),
            insts == f.block(b).insts,
            n == insts.len(),
            list.len() == i,
            forall|j: int|
                0 <= j < i ==> (#[trigger] list@[j])@ == (InstView {
                    result: insts[j].result,
                    kind: moved_kind(f, insts[j].kind, name@, slot),
                }),
    {
        let inst = &func.blocks[b.0].insts[i];
        assert(inst@ == f.inst(b, i as int));
        proof {
            query::lemma_inst_wf(f, b, i as int);
        }
        let kind = match &inst.kind {
            InstKind::Load { ptr } => if leads_to(func, *ptr, name) {
                InstKind::Load { ptr: slot }
            } else {
                InstKind::Load { ptr: *ptr }
            },
            InstKind::Store { ptr, value } => if leads_to(func, *ptr, name) {
                InstKind::Store { ptr: slot, value: *value }
            } else {
                InstKind::Store { ptr: *ptr, value: *value }
            },
            kind => kind.clone(),
        };
        list.push(Inst { result: inst.result, kind });
    }
    assert(ir::insts_view(list@) =~= accesses_moved(f, insts, name@, slot));
    list
}

fn promote_candidate(func: &mut Function, r: &Region)
    requires
        old(func)@.wf(),
        region_in(old(func)@, r@),
    ensures
        final(func)@ == promoted(old(func)@, r@),
{
    let source = func.clone();
    let ghost f = func@;
    assert(func.values.len() == f.values.len());
    assert(func.blocks.len() == f.blocks.len());
    let flush = func.blocks.len();
    let slot = ValueId(func.values.len());
    let n = r.blocks.len();
    for k in 0..n
        invariant
            source@ == f,
            f.wf(),
            n == r.blocks.len(),
            region_in(f, r@),
            func@.blocks.len() == f.blocks.len(),
            func@.values.len() == f.values.len(),
            func@ == blocks_moved(f, r@.blocks, r@.name, slot, k as int),
    {
        let b = r.blocks[k];
        assert(f.has_block(r@.blocks[k as int]));
        let list = move_accesses(&source, b, &r.name, slot);
        refill(func, b.0, list);
    }
    assert(source.blocks@[r.exit.0 as int]@ == f.block(r.exit));
    let exits = rename_preds(&source.blocks[r.exit.0].insts, r.header, BlockId(flush));
    refill(func, r.exit.0, exits);
    let p = r.preheader.0;
    emit(
        func,
        p,
        InstKind::Alloca { ty: r.ty.clone() },
        Type::Ptr(Box::new(r.ty.clone())),
    );
    let initial = emit(func, p, InstKind::Load { ptr: r.global }, r.ty.clone());
    emit_effect(func, p, InstKind::Store { ptr: slot, value: initial });
    let prefix = joined("regional.", r.name.as_str());
    let name = joined(prefix.as_str(), ".flush");
    new_block(func, name.as_str());
    let last = emit(func, flush, InstKind::Load { ptr: slot }, r.ty.clone());
    emit_effect(func, flush, InstKind::Store { ptr: r.global, value: last });
    end_jump(func, flush, r.exit.0);
    assert(source.blocks@[r.header.0 as int]@ == f.block(r.header));
    if let Some(t) = &source.blocks[r.header.0].terminator {
        let t = redirect(t, r.exit, BlockId(flush));
        end_with(func, r.header.0, t);
    }
}

/// Keeps the scalar globals of the loops of a function in local slots.
pub fn promote_function(func: &mut Function)
    requires
        old(func)@.wf(),
    ensures
        final(func)@ == globals_promoted(old(func)@),
        final(func)@.wf(),
{
    let ghost f = func@;
    let mut left: usize = usize::MAX;
    let mut on = true;
    while on && left > 0
        invariant
            func@.wf(),
            on ==> globals_promoted(f) == promote_rounds(func@, left as nat),
            !on ==> globals_promoted(f) == func@,
        decreases left,
    {
        left = left - 1;
        match find_region(func, false) {
            Some(r) => {
                let before = func.clone();
                promote_candidate(func, &r);
                if func.verify().is_err() {
                    *func = before;
                    on = false;
                }
            },
            None => {
                on = false;
            },
        }
    }
}

/// The pass that keeps scalar globals in local slots.
pub struct RegionalGlobalScalarPass;

impl RegionalGlobalScalarPass {
    pub fn new() -> (r: Self) {
        RegionalGlobalScalarPass
    }

    /// Keeps the scalar globals of the loops of every function in local slots.
    pub fn run(&self, module: &mut Module)
        requires
            old(module)@.wf(),
        ensures
            final(module)@ == promoted_module(old(module)@),
            final(module)@.wf(),
    {
        let ghost m = module@;
        let ghost want = promoted_module(m);
        let n = module.funcs.len();
        for k in 0..n
            invariant
                n == module.funcs.len(),
                n == m.funcs.len(),
                m.wf(),
                module@ == (ModuleView { funcs: module@.funcs, ..m }),
                want == promoted_module(m),
                forall|j: int|
                    0 <= j < k ==> #[trigger] module@.funcs[j] == want.funcs[j]
                        && module@.funcs[j].wf(),
                forall|j: int| k <= j < n ==> #[trigger] module@.funcs[j] == m.funcs[j],
        {
            assert(module@.funcs[k as int] == m.funcs[k as int]);
            let ghost before = module@.funcs;
            promote_function(&mut module.funcs[k]);
            assert(module@.funcs =~= before.update(k as int, module.funcs@[k as int]@));
        }
        assert(module@.funcs =~= want.funcs);
    }
}

/// The pass that hoists loads of scalar globals.
pub struct RegionalInvariantGlobalLoadPass;

impl RegionalInvariantGlobalLoadPass {
    pub fn new() -> (r: Self) {
        RegionalInvariantGlobalLoadPass
    }

    /// Hoists the loads of scalar globals out of the loops of every function.
    pub fn run(&self, module: &mut Module)
        requires
            old(module)@.wf(),
        ensures
            final(module)@ == hoisted_module(old(module)@),
            final(module)@.wf(),
    {
        let ghost m = module@;
        let ghost want = hoisted_module(m);
        let n = module.funcs.len();
        for k in 0..n
            invariant
                n == module.funcs.len(),
                n == m.funcs.len(),
                m.wf(),
                module@ == (ModuleView { funcs: module@.funcs, ..m }),
                want == hoisted_module(m),
                forall|j: int|
                    0 <= j < k ==> #[trigger] module@.funcs[j] == want.funcs[j]
                        && module@.funcs[j].wf(),
                forall|j: int| k <= j < n ==> #[trigger] module@.funcs[j] == m.funcs[j],
        {
            assert(module@.funcs[k as int] == m.funcs[k as int]);
            let ghost before = module@.funcs;
            hoist_function(&mut module.funcs[k]);
            assert(module@.funcs =~= before.update(k as int, module.funcs@[k as int]@));
        }
        assert(module@.funcs =~= want.funcs);
    }
}

// ---------------------------------------------------------------------------
// Laws
// ---------------------------------------------------------------------------

proof fn lemma_hoists_valid(f: FuncView, fuel: nat)
    requires
        verify::valid(f),
    ensures
        verify::valid(hoist_rounds(f, fuel)),
    decreases fuel,
{
    if let Some(r) = region_of(f, true) {
        if fuel > 0 && verify::valid(hoisted(f, r)) {
            lemma_hoists_valid(hoisted(f, r), (fuel - 1) as nat);
        }
    }
}

proof fn lemma_promotions_valid(f: FuncView, fuel: nat)
    requires
        verify::valid(f),
    ensures
        verify::valid(promote_rounds(f, fuel)),
    decreases fuel,
{
    if let Some(r) = region_of(f, false) {
        if fuel > 0 && verify::valid(promoted(f, r)) {
            lemma_promotions_valid(promoted(f, r), (fuel - 1) as nat);
        }
    }
}

/// The passes keep functions valid.
pub proof fn regional_passes_keep_validity(f: FuncView)
    requires
        verify::valid(f),
    ensures
        verify::valid(loads_hoisted(f)),
        verify::valid(globals_promoted(f)),
{
    lemma_hoists_valid(f, MAX_READONLY_HOISTS_PER_FUNCTION as nat);
    lemma_promotions_valid(f, usize::MAX as nat);
}

/// An access of a loop to the global or to another place.
pub enum Access {
    ReadGlobal,
    WriteGlobal(int),
    Elsewhere,
}

/// What the reads of the global return, from place `k` on, when it holds
/// `current`, and what it holds at the end.
pub open spec fn run_from(accesses: Seq<Access>, current: int, k: int) -> (Seq<int>, int)
    decreases accesses.len() - k,
{
    if k < 0 || k >= accesses.len() {
        (Seq::empty(), current)
    } else {
        match accesses[k] {
            Access::ReadGlobal => {
                let (reads, last) = run_from(accesses, current, k + 1);
                (seq![current] + reads, last)
            },
            Access::WriteGlobal(x) => run_from(accesses, x, k + 1),
            Access::Elsewhere => run_from(accesses, current, k + 1),
        }
    }
}

/// Where a loop does not write the global, every read of it returns what it held
/// before the loop: the single load serves them all.
pub proof fn reads_return_what_was_there(accesses: Seq<Access>, current: int, k: int)
    requires
        0 <= k,
        forall|j: int| 0 <= j < accesses.len() ==> !(#[trigger] accesses[j] is WriteGlobal),
    ensures
        run_from(accesses, current, k).1 == current,
        forall|j: int|
            0 <= j < run_from(accesses, current, k).0.len() ==> #[trigger] run_from(
                accesses,
                current,
                k,
            ).0[j] == current,
    decreases accesses.len() - k,
{
    if k < accesses.len() {
        assert(!(accesses[k] is WriteGlobal));
        reads_return_what_was_there(accesses, current, k + 1);
    }
}

} // verus!
