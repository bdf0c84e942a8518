//! Accesses of a loop to scalar globals.
use vstd::prelude::*;

use crate::cfg;
use crate::cfg::reach_from;
use crate::ir::{
    BlockId, FuncView, Function, Inst, InstKind, InstView, KindView, Type, ValueId, ValueKind,
    ValueKindView,
};
use crate::objects;
use crate::objects::{build_source_graph, object};
use crate::pass::loop_idiom;
use crate::pass::loop_idiom::scalar;
use crate::query;
use crate::query::defining_inst_kind;

verus! {

// ---------------------------------------------------------------------------
// Mathematical model
// ---------------------------------------------------------------------------

/// The scalar global that a value is the address of: its name and its type.
pub open spec fn scalar_global_of(f: FuncView, v: ValueId) -> Option<(Seq<char>, Type)> {
    match (f.value(v).kind, f.value(v).ty) {
        (ValueKindView::Global(name), Type::Ptr(pointee)) => if loop_idiom::is_scalar(*pointee) {
            Some((name, *pointee))
        } else {
            None
        },
        _ => None,
    }
}

/// The value is the address of the scalar global of the name.
pub open spec fn is_named(f: FuncView, v: ValueId, name: Seq<char>) -> bool {
    scalar_global_of(f, v) matches Some((n, _)) && n == name
}

/// What is looked for.
#[derive(Clone, Copy, PartialEq, Eq, Structural)]
pub enum What {
    /// Loads.
    Loads,
    /// Loads with a result.
    Results,
    /// Stores.
    Stores,
}

/// The pointer of an access of the given kind.
pub open spec fn pointer_of(inst: InstView, what: What) -> Option<ValueId> {
    match (what, inst.kind) {
        (What::Loads, KindView::Load { ptr }) => Some(ptr),
        (What::Results, KindView::Load { ptr }) => if inst.result is Some {
            Some(ptr)
        } else {
            None
        },
        (What::Stores, KindView::Store { ptr, .. }) => Some(ptr),
        _ => None,
    }
}

/// The pointers of accesses to scalar globals, in the first `n` instructions.
pub open spec fn pointers_below(f: FuncView, insts: Seq<InstView>, what: What, n: int) -> Seq<
    ValueId,
>
    decreases n,
{
    if n <= 0 {
        Seq::empty()
    } else {
        let before = pointers_below(f, insts, what, n - 1);
        match pointer_of(insts[n - 1], what) {
            Some(ptr) => if scalar_global_of(f, ptr) is Some {
                before.push(ptr)
            } else {
                before
            },
            None => before,
        }
    }
}

/// The pointers of accesses to scalar globals, in the first `n` blocks of the
/// list.
pub open spec fn pointers_in(f: FuncView, blocks: Seq<BlockId>, what: What, n: int) -> Seq<ValueId>
    decreases n,
{
    if n <= 0 {
        Seq::empty()
    } else {
        let insts = f.block(blocks[n - 1]).insts;
        pointers_in(f, blocks, what, n - 1) + pointers_below(f, insts, what, insts.len() as int)
    }
}

pub open spec fn pointers(f: FuncView, blocks: Seq<BlockId>, what: What) -> Seq<ValueId> {
    pointers_in(f, blocks, what, blocks.len() as int)
}

/// How many of the first `n` pointers are the address of the global.
pub open spec fn named_below(f: FuncView, list: Seq<ValueId>, name: Seq<char>, n: int) -> nat
    decreases n,
{
    if n <= 0 {
        0
    } else {
        named_below(f, list, name, n - 1) + (if is_named(f, list[n - 1], name) {
            1nat
        } else {
            0nat
        })
    }
}

pub open spec fn named_in(f: FuncView, list: Seq<ValueId>, name: Seq<char>) -> nat {
    named_below(f, list, name, list.len() as int)
}

/// Every pointer to the global has the type.
pub open spec fn all_typed(f: FuncView, list: Seq<ValueId>, name: Seq<char>, ty: Type) -> bool {
    forall|k: int|
        0 <= k < list.len() && is_named(f, #[trigger] list[k], name) ==> scalar_global_of(
            f,
            list[k],
        ) == Some((name, ty))
}

/// The address is computed from others, or leads to another object than the
/// global.
pub open spec fn is_elsewhere(f: FuncView, w: ValueId, name: Seq<char>) -> bool {
    match query::definition(f, w) {
        Some(KindView::Gep { .. }) => true,
        Some(KindView::Phi { .. }) => true,
        Some(KindView::Alloca { .. }) => true,
        Some(_) => false,
        None => f.value(w).kind is Global && f.value(w).kind != ValueKindView::Global(name),
    }
}

/// The address is proven not to be that of the global.
pub open spec fn is_apart(f: FuncView, v: ValueId, name: Seq<char>) -> bool {
    &&& forall|w: ValueId|
        f.has_value(w) && #[trigger] objects::comes_from(f, v, w) ==> is_elsewhere(f, w, name)
    &&& exists|w: ValueId|
        f.has_value(w) && #[trigger] objects::comes_from(f, v, w) && objects::is_object(f, w)
}

/// The instruction writes the global only by its name; if reads count, it also
/// reads the global only by its name.
pub open spec fn inst_is_apart(f: FuncView, inst: InstView, name: Seq<char>, reads: bool) -> bool {
    match inst.kind {
        KindView::Load { ptr } => !reads || is_named(f, ptr, name) || is_apart(f, ptr, name),
        KindView::Store { ptr, .. } => is_named(f, ptr, name) || is_apart(f, ptr, name),
        KindView::MemZero { .. } => false,
        KindView::MemCopy { .. } => false,
        KindView::Call { .. } => false,
        _ => true,
    }
}

/// The blocks write the global only by its name; if reads count, they also read
/// the global only by its name.
pub open spec fn is_disjoint(f: FuncView, blocks: Seq<BlockId>, name: Seq<char>, reads: bool) -> bool {
    forall|b: BlockId, i: int|
        blocks.contains(b) && f.has_inst(b, i) ==> inst_is_apart(
            f,
            #[trigger] f.inst(b, i),
            name,
            reads,
        )
}

/// The instruction has effects beyond loads and stores.
pub open spec fn is_opaque(kind: KindView) -> bool {
    kind is Call || kind is MemZero || kind is MemCopy
}

/// The blocks have no effects beyond loads and stores.
pub open spec fn has_plain_effects(f: FuncView, blocks: Seq<BlockId>) -> bool {
    forall|b: BlockId, i: int|
        blocks.contains(b) && f.has_inst(b, i) ==> !is_opaque((#[trigger] f.inst(b, i)).kind)
}

// ---------------------------------------------------------------------------
// Executable functions
// ---------------------------------------------------------------------------

pub open spec fn global_view(r: Option<(&String, &Type)>) -> Option<(Seq<char>, Type)> {
    match r {
        Some((name, ty)) => Some((name@, *ty)),
        None => None,
    }
}

pub fn scalar_global(func: &Function, v: ValueId) -> (r: Option<(&String, &Type)>)
    requires
        func@.has_value(v),
    ensures
        global_view(r) == scalar_global_of(func@, v),
{
    assert(func.values@[v.0 as int]@ == func@.value(v));
    let value = &func.values[v.0];
    match (&value.kind, &value.ty) {
        (ValueKind::Global(name), Type::Ptr(pointee)) => if scalar(&**pointee) {
            Some((name, &**pointee))
        } else {
            None
        },
        _ => None,
    }
}

pub fn has_name(func: &Function, v: ValueId, name: &String) -> (r: bool)
    requires
        func@.has_value(v),
    ensures
        r == is_named(func@, v, name@),
{
    match scalar_global(func, v) {
        Some((n, _)) => *n == *name,
        None => false,
    }
}

fn find_pointer(inst: &Inst, what: What) -> (r: Option<ValueId>)
    ensures
        r == pointer_of(inst@, what),
{
    match (what, &inst.kind) {
        (What::Loads, InstKind::Load { ptr }) => Some(*ptr),
        (What::Results, InstKind::Load { ptr }) => if inst.result.is_some() {
            Some(*ptr)
        } else {
            None
        },
        (What::Stores, InstKind::Store { ptr, .. }) => Some(*ptr),
        _ => None,
    }
}

/// All values of the list exist.
pub open spec fn exist(f: FuncView, list: Seq<ValueId>) -> bool {
    forall|k: int| 0 <= k < list.len() ==> f.has_value(#[trigger] list[k])
}

pub fn collect_pointers(func: &Function, blocks: &Vec<BlockId>, what: What) -> (r: Vec<ValueId>)
    requires
        func@.wf(),
        forall|k: int| 0 <= k < blocks.len() ==> func@.has_block(#[trigger] blocks@[k]),
    ensures
        r@ == pointers(func@, blocks@, what),
        exist(func@, r@),
{
    let ghost f = func@;
    let mut list: Vec<ValueId> = Vec::new();
    let n = blocks.len();
    for k in 0..n
        invariant
            func@ == f,
            f.wf(),
            n == blocks.len(),
            forall|k: int| 0 <= k < blocks.len() ==> f.has_block(#[trigger] blocks@[k]),
            list@ == pointers_in(f, blocks@, what, k as int),
            exist(f, list@),
    {
        let b = blocks[k];
        assert(f.has_block(blocks@[k as int]));
        let ghost start = list@;
        let ghost insts = f.block(b).insts;
        let count = func.blocks[b.0].insts.len();
        assert(list@ =~= start + pointers_below(f, insts, what, 0));
        for i in 0..count
            invariant
                func@ == f,
                f.wf(),
                f.has_block(b),
                insts == f.block(b).insts,
                count == insts.len(),
                list@ == start + pointers_below(f, insts, what, i as int),
                exist(f, list@),
        {
            let inst = &func.blocks[b.0].insts[i];
            assert(inst@ == f.inst(b, i as int));
            proof {
                query::lemma_inst_wf(f, b, i as int);
            }
            let ghost before = list@;
            if let Some(ptr) = find_pointer(inst, what) {
                if scalar_global(func, ptr).is_some() {
                    list.push(ptr);
                }
            }
            assert(list@ =~= start + pointers_below(f, insts, what, i + 1));
        }
    }
    list
}

pub fn count_named(func: &Function, list: &Vec<ValueId>, name: &String) -> (r: usize)
    requires
        exist(func@, list@),
    ensures
        r == named_in(func@, list@, name@),
{
    let mut count: usize = 0;
    let n = list.len();
    for k in 0..n
        invariant
            n == list.len(),
            exist(func@, list@),
            count <= k,
            count == named_below(func@, list@, name@, k as int),
    {
        assert(func@.has_value(list@[k as int]));
        if has_name(func, list[k], name) {
            count = count + 1;
        }
    }
    count
}

pub fn check_types(func: &Function, list: &Vec<ValueId>, name: &String, ty: &Type) -> (r: bool)
    requires
        exist(func@, list@),
    ensures
        r == all_typed(func@, list@, name@, *ty),
{
    let n = list.len();
    for k in 0..n
        invariant
            n == list.len(),
            exist(func@, list@),
            forall|j: int|
                0 <= j < k && is_named(func@, #[trigger] list@[j], name@) ==> scalar_global_of(
                    func@,
                    list@[j],
                ) == Some((name@, *ty)),
    {
        assert(func@.has_value(list@[k as int]));
        if let Some((n, t)) = scalar_global(func, list[k]) {
            if *n == *name && !t.same(ty) {
                assert(is_named(func@, list@[k as int], name@));
                return false;
            }
        }
    }
    true
}

fn elsewhere(func: &Function, w: ValueId, name: &String) -> (r: bool)
    requires
        func@.has_value(w),
    ensures
        r == is_elsewhere(func@, w, name@),
{
    match defining_inst_kind(func, w) {
        Some(kind) => matches!(kind, InstKind::Gep { .. }) || matches!(kind, InstKind::Phi { .. })
            || matches!(kind, InstKind::Alloca { .. }),
        None => {
            assert(func.values@[w.0 as int]@ == func@.value(w));
            match &func.values[w.0].kind {
                ValueKind::Global(n) => *n != *name,
                _ => false,
            }
        },
    }
}

fn pointer_is_proven_disjoint(
    func: &Function,
    graph: &Vec<Vec<BlockId>>,
    v: ValueId,
    name: &String,
) -> (r: bool)
    requires
        func@.wf(),
        func@.has_value(v),
        cfg::lists_view(graph@) == objects::source_graph(func@),
        cfg::graph_wf(objects::source_graph(func@)),
    ensures
        r == is_apart(func@, v, name@),
{
    let ghost f = func@;
    assert(cfg::lists_view(graph@).len() == graph.len());
    assert(objects::source_graph(f).len() == f.values.len());
    let marks = reach_from(graph, BlockId(v.0), None);
    let n = func.values.len();
    assert(n == f.values.len());
    let mut found = false;
    for w in 0..n
        invariant
            func@ == f,
            n == f.values.len(),
            marks.len() == n,
            forall|u: int|
                0 <= u < n ==> (#[trigger] marks@[u] <==> objects::comes_from(
                    f,
                    v,
                    ValueId(u as usize),
                )),
            forall|u: ValueId|
                u.0 < w && #[trigger] objects::comes_from(f, v, u) ==> is_elsewhere(f, u, name@),
            found <==> exists|u: ValueId|
                u.0 < w && #[trigger] objects::comes_from(f, v, u) && objects::is_object(f, u),
    {
        let id = ValueId(w);
        assert(marks@[w as int] <==> objects::comes_from(f, v, id));
        if marks[w] {
            if !elsewhere(func, id, name) {
                assert(f.has_value(id) && objects::comes_from(f, v, id));
                return false;
            }
            if object(func, id) {
                found = true;
            }
        }
    }
    found
}

fn check_inst(
    func: &Function,
    graph: &Vec<Vec<BlockId>>,
    inst: &Inst,
    name: &String,
    reads: bool,
) -> (r: bool)
    requires
        func@.wf(),
        crate::edit::inst_wf(inst@, func@.blocks.len(), func@.values.len()),
        cfg::lists_view(graph@) == objects::source_graph(func@),
        cfg::graph_wf(objects::source_graph(func@)),
    ensures
        r == inst_is_apart(func@, inst@, name@, reads),
{
    match &inst.kind {
        InstKind::Load { ptr } => !reads || has_name(func, *ptr, name) || pointer_is_proven_disjoint(
            func,
            graph,
            *ptr,
            name,
        ),
        InstKind::Store { ptr, .. } => has_name(func, *ptr, name) || pointer_is_proven_disjoint(
            func,
            graph,
            *ptr,
            name,
        ),
        InstKind::MemZero { .. } => false,
        InstKind::MemCopy { .. } => false,
        InstKind::Call { .. } => false,
        _ => true,
    }
}

/// What has been looked at: all of the first `k` blocks, and the first `i`
/// instructions of the next.
pub open spec fn seen(f: FuncView, blocks: Seq<BlockId>, k: int, i: int, b: BlockId, j: int) -> bool {
    f.has_inst(b, j) && ((exists|m: int| 0 <= m < k && #[trigger] blocks[m] == b) || (k
        < blocks.len() && blocks[k] == b && j < i))
}

pub fn loop_memory_is_disjoint(
    func: &Function,
    blocks: &Vec<BlockId>,
    name: &String,
    reads: bool,
) -> (r: bool)
    requires
        func@.wf(),
        forall|k: int| 0 <= k < blocks.len() ==> func@.has_block(#[trigger] blocks@[k]),
    ensures
        r == is_disjoint(func@, blocks@, name@, reads),
{
    let ghost f = func@;
    let graph = build_source_graph(func);
    let n = blocks.len();
    for k in 0..n
        invariant
            func@ == f,
            f.wf(),
            n == blocks.len(),
            cfg::lists_view(graph@) == objects::source_graph(f),
            cfg::graph_wf(objects::source_graph(f)),
            forall|k: int| 0 <= k < blocks.len() ==> f.has_block(#[trigger] blocks@[k]),
            forall|b: BlockId, j: int|
                seen(f, blocks@, k as int, 0, b, j) ==> inst_is_apart(
                    f,
                    #[trigger] f.inst(b, j),
                    name@,
                    reads,
                ),
    {
        let b = blocks[k];
        assert(f.has_block(blocks@[k as int]));
        let count = func.blocks[b.0].insts.len();
        for i in 0..count
            invariant
                func@ == f,
                f.wf(),
                k < blocks.len(),
                b == blocks@[k as int],
                f.has_block(b),
                count == f.block(b).insts.len(),
                cfg::lists_view(graph@) == objects::source_graph(f),
                cfg::graph_wf(objects::source_graph(f)),
                forall|c: BlockId, j: int|
                    seen(f, blocks@, k as int, i as int, c, j) ==> inst_is_apart(
                        f,
                        #[trigger] f.inst(c, j),
                        name@,
                        reads,
                    ),
        {
            let inst = &func.blocks[b.0].insts[i];
            assert(inst@ == f.inst(b, i as int));
            proof {
                query::lemma_inst_wf(f, b, i as int);
            }
            if !check_inst(func, &graph, inst, name, reads) {
                assert(blocks@.contains(b));
                assert(!inst_is_apart(f, f.inst(b, i as int), name@, reads));
                return false;
            }
            assert forall|c: BlockId, j: int|
                seen(f, blocks@, k as int, i + 1, c, j) implies inst_is_apart(
                f,
                #[trigger] f.inst(c, j),
                name@,
                reads,
            ) by {
                if !seen(f, blocks@, k as int, i as int, c, j) {
                    assert(c == b && j == i);
                }
            }
        }
        assert forall|c: BlockId, j: int| seen(f, blocks@, k + 1, 0, c, j) implies inst_is_apart(
            f,
            #[trigger] f.inst(c, j),
            name@,
            reads,
        ) by {
            assert(seen(f, blocks@, k as int, count as int, c, j));
        }
    }
    assert forall|b: BlockId, i: int|
        blocks@.contains(b) && f.has_inst(b, i) implies inst_is_apart(
        f,
        #[trigger] f.inst(b, i),
        name@,
        reads,
    ) by {
        let m = choose|m: int| 0 <= m < blocks@.len() && blocks@[m] == b;
        assert(blocks@[m] == b);
        assert(seen(f, blocks@, n as int, 0, b, i));
    }
    true
}

pub fn only_loads_and_stores(func: &Function, blocks: &Vec<BlockId>) -> (r: bool)
    requires
        forall|k: int| 0 <= k < blocks.len() ==> func@.has_block(#[trigger] blocks@[k]),
    ensures
        r == has_plain_effects(func@, blocks@),
{
    let ghost f = func@;
    let n = blocks.len();
    for k in 0..n
        invariant
            func@ == f,
            n == blocks.len(),
            forall|k: int| 0 <= k < blocks.len() ==> f.has_block(#[trigger] blocks@[k]),
            forall|b: BlockId, j: int|
                seen(f, blocks@, k as int, 0, b, j) ==> !is_opaque((#[trigger] f.inst(b, j)).kind),
    {
        let b = blocks[k];
        assert(f.has_block(blocks@[k as int]));
        let count = func.blocks[b.0].insts.len();
        for i in 0..count
            invariant
                func@ == f,
                k < blocks.len(),
                b == blocks@[k as int],
                f.has_block(b),
                count == f.block(b).insts.len(),
                forall|c: BlockId, j: int|
                    seen(f, blocks@, k as int, i as int, c, j) ==> !is_opaque(
                        (#[trigger] f.inst(c, j)).kind,
                    ),
        {
            let inst = &func.blocks[b.0].insts[i];
            assert(inst@ == f.inst(b, i as int));
            if matches!(inst.kind, InstKind::Call { .. }) || matches!(
                inst.kind,
                InstKind::MemZero { .. }
            ) || matches!(inst.kind, InstKind::MemCopy { .. }) {
                assert(blocks@.contains(b));
                assert(is_opaque(f.inst(b, i as int).kind));
                return false;
            }
            assert forall|c: BlockId, j: int|
                seen(f, blocks@, k as int, i + 1, c, j) implies !is_opaque(
                (#[trigger] f.inst(c, j)).kind,
            ) by {
                if !seen(f, blocks@, k as int, i as int, c, j) {
                    assert(c == b && j == i);
                }
            }
        }
        assert forall|c: BlockId, j: int| seen(f, blocks@, k + 1, 0, c, j) implies !is_opaque(
            (#[trigger] f.inst(c, j)).kind,
        ) by {
            assert(seen(f, blocks@, k as int, count as int, c, j));
        }
    }
    assert forall|b: BlockId, i: int|
        blocks@.contains(b) && f.has_inst(b, i) implies !is_opaque(
        (#[trigger] f.inst(b, i)).kind,
    ) by {
        let m = choose|m: int| 0 <= m < blocks@.len() && blocks@[m] == b;
        assert(blocks@[m] == b);
        assert(seen(f, blocks@, n as int, 0, b, i));
    }
    true
}

} // verus!
