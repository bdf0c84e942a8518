//! Elements that live in a slot while a loop runs.
use vstd::prelude::*;

use crate::cfg::{ControlFlowGraph, Dominators};
use crate::edit;
use crate::edit::{inst_operands, terminator_operands};
use crate::emit;
use crate::emit::{
    emit, emit_comparison, emit_store, end_branch, end_jump, end_with, new_block, refill,
};
use crate::flow;
use crate::flow::{any_marked, mark_defined};
use crate::ir;
use crate::ir::{
    BlockId, CompareOp, FuncView, Function, Inst, InstKind, InstView, KindView, Terminator, Type,
    ValueId,
};
use crate::loops;
use crate::loops::{InductionVariable, LoopInfo, LoopView, NaturalLoop};
use crate::pass::edges;
use crate::pass::edges::{redirect, rename_preds};
use crate::pass::loop_idiom;
use crate::pass::loop_idiom::{is_loop_invariant, scalar};
use crate::pass::loop_memory_promotion::forward;
use crate::pass::loop_memory_promotion::forward::is_small_function;
use crate::pass::loop_memory_promotion::path;
use crate::pass::loop_memory_promotion::path::{
    access_path, active_header_comparison, header_induction, leads_to, local,
    loop_memory_is_disjoint, AccessPath, AccessPathView,
};
use crate::pass::regional_global_scalar::access;
use crate::pass::regional_global_scalar::access::only_loads_and_stores;
use crate::query;
use crate::query::{block_has_phi, jump_target, value_available_at_block};
use crate::verify;

verus! {

/// A loop that counts, is entered by a jump, and left by its header.
#[derive(Clone, Copy)]
pub struct Shape {
    pub preheader: BlockId,
    pub exit: BlockId,
    pub induction: InductionVariable,
    pub op: CompareOp,
    pub bound: ValueId,
    pub taken: BlockId,
}

/// An element of an array that a loop can keep in a slot.
pub struct Candidate {
    pub pointer: ValueId,
    pub path: AccessPath,
    pub ty: Type,
    pub header: BlockId,
    pub blocks: Vec<BlockId>,
    pub shape: Shape,
}

pub struct CandidateView {
    pub pointer: ValueId,
    pub path: AccessPathView,
    pub ty: Type,
    pub header: BlockId,
    pub blocks: Seq<BlockId>,
    pub shape: Shape,
}

impl View for Candidate {
    type V = CandidateView;

    open spec fn view(&self) -> CandidateView {
        CandidateView {
            pointer: self.pointer,
            path: self.path@,
            ty: self.ty,
            header: self.header,
            blocks: self.blocks@,
            shape: self.shape,
        }
    }
}

// ---------------------------------------------------------------------------
// Mathematical model: recognition
// ---------------------------------------------------------------------------

/// The function calls another.
pub open spec fn has_call(f: FuncView) -> bool {
    exists|b: BlockId, i: int| f.has_inst(b, i) && (#[trigger] f.inst(b, i)).kind is Call
}

pub open spec fn is_header_kind(kind: KindView) -> bool {
    kind is Nop || kind is Phi || kind is ICompare
}

/// The instructions only choose and compare.
pub open spec fn only_compares(insts: Seq<InstView>) -> bool {
    forall|i: int| 0 <= i < insts.len() ==> is_header_kind((#[trigger] insts[i]).kind)
}

/// The block reads a marked value.
pub open spec fn reads_marked(f: FuncView, marks: Seq<bool>, b: BlockId) -> bool {
    ||| exists|i: int|
        0 <= i < f.block(b).insts.len() && flow::some_marked(
            marks,
            edit::operands((#[trigger] f.inst(b, i)).kind),
        )
    ||| flow::some_marked(marks, edit::terminator_reads(f.terminator(b)))
}

/// No block outside of the loop reads what the loop defines.
pub open spec fn stays_inside(f: FuncView, l: LoopView) -> bool {
    forall|b: BlockId|
        f.has_block(b) && !l.has(b) ==> !(#[trigger] reads_marked(
            f,
            flow::defined_marks(f, l.blocks),
            b,
        ))
}

/// Where a loop that is left by its header only exits to.
pub open spec fn exit_of(l: LoopView) -> Option<BlockId> {
    if l.exit_edges.len() == 1 && l.exit_edges[0].0 == l.header && l.unique_latch() is Some {
        Some(l.exit_edges[0].1)
    } else {
        None
    }
}

/// The loop as one that can keep elements in slots.
pub open spec fn shape_of(f: FuncView, l: LoopView) -> Option<Shape> {
    match (l.dedicated_preheader, exit_of(l)) {
        (Some(preheader), Some(exit)) => if query::jump_of(f, preheader) == Some(l.header)
            && only_compares(f.block(l.header).insts) && !query::has_phi(f.block(exit).insts)
            && access::has_plain_effects(f, l.blocks) {
            match path::counter_of(f, l) {
                Some(iv) => match path::guard_of(f, l, iv.phi) {
                    Some((op, bound, taken)) => if query::available_at(f, iv.initial, preheader)
                        && query::available_at(f, bound, preheader) && stays_inside(f, l) {
                        Some(Shape { preheader, exit, induction: iv, op, bound, taken })
                    } else {
                        None
                    },
                    None => None,
                },
                None => None,
            }
        } else {
            None
        },
        _ => None,
    }
}

/// The instruction loads or stores the element.
pub open spec fn accesses(f: FuncView, kind: KindView, p: AccessPathView, store: bool) -> bool {
    match kind {
        KindView::Load { ptr } => !store && path::path_of(f, ptr) == Some(p),
        KindView::Store { ptr, .. } => store && path::path_of(f, ptr) == Some(p),
        _ => false,
    }
}

/// The blocks load or store the element.
pub open spec fn has_access(f: FuncView, blocks: Seq<BlockId>, p: AccessPathView, store: bool) -> bool {
    exists|b: BlockId, i: int|
        blocks.contains(b) && f.has_inst(b, i) && accesses(
            f,
            (#[trigger] f.inst(b, i)).kind,
            p,
            store,
        )
}

/// The element is loaded and stored in the loop, loaded in every round, and left
/// alone by all other accesses.
pub open spec fn element_fits(f: FuncView, l: LoopView, s: Shape, p: AccessPathView) -> bool {
    &&& p.indices.len() >= 2
    &&& !path::is_local(f, p.root)
    &&& has_access(f, l.blocks, p, false)
    &&& has_access(f, l.blocks, p, true)
    &&& has_access(f, seq![s.taken], p, false)
    &&& path::loop_fits(f, l, s.induction, p, true)
}

/// The element that an address leads to, where the loop can keep it in a slot.
pub open spec fn element_of(f: FuncView, l: LoopView, s: Shape, ptr: ValueId) -> Option<
    (AccessPathView, Type),
> {
    if loop_idiom::is_invariant(f, l, ptr) && query::available_at(f, ptr, s.preheader) {
        match (path::path_of(f, ptr), f.value(ptr).ty) {
            (Some(p), Type::Ptr(pointee)) => if loop_idiom::is_scalar(*pointee) && element_fits(
                f,
                l,
                s,
                p,
            ) {
                Some((p, *pointee))
            } else {
                None
            },
            _ => None,
        }
    } else {
        None
    }
}

/// The address that an instruction loads from or stores to.
pub open spec fn address_of(kind: KindView) -> Option<ValueId> {
    match kind {
        KindView::Load { ptr } => Some(ptr),
        KindView::Store { ptr, .. } => Some(ptr),
        _ => None,
    }
}

pub open spec fn candidate_with(l: LoopView, s: Shape, ptr: ValueId, p: AccessPathView, ty: Type) -> CandidateView {
    CandidateView { pointer: ptr, path: p, ty, header: l.header, blocks: l.blocks, shape: s }
}

/// The first candidate of a block, from instruction `i` on.
pub open spec fn candidate_in_block(
    f: FuncView,
    l: LoopView,
    s: Shape,
    insts: Seq<InstView>,
    i: int,
) -> Option<CandidateView>
    decreases insts.len() - i,
{
    if i < 0 || i >= insts.len() {
        None
    } else {
        match address_of(insts[i].kind) {
            Some(ptr) => match element_of(f, l, s, ptr) {
                Some((p, ty)) => Some(candidate_with(l, s, ptr, p, ty)),
                None => candidate_in_block(f, l, s, insts, i + 1),
            },
            None => candidate_in_block(f, l, s, insts, i + 1),
        }
    }
}

/// The first candidate of a loop, from its block `k` on.
pub open spec fn candidate_in_loop(f: FuncView, l: LoopView, s: Shape, k: int) -> Option<CandidateView>
    decreases l.blocks.len() - k,
{
    if k < 0 || k >= l.blocks.len() {
        None
    } else {
        match candidate_in_block(f, l, s, f.block(l.blocks[k]).insts, 0) {
            Some(c) => Some(c),
            None => candidate_in_loop(f, l, s, k + 1),
        }
    }
}

pub open spec fn candidate_from(f: FuncView, list: Seq<LoopView>, k: int) -> Option<CandidateView>
    decreases list.len() - k,
{
    if k < 0 || k >= list.len() {
        None
    } else {
        match candidate_at(f, list[k]) {
            Some(c) => Some(c),
            None => candidate_from(f, list, k + 1),
        }
    }
}

pub open spec fn candidate_at(f: FuncView, l: LoopView) -> Option<CandidateView> {
    match shape_of(f, l) {
        Some(s) => candidate_in_loop(f, l, s, 0),
        None => None,
    }
}

/// The first element that a loop can keep in a slot.
pub open spec fn candidate_of(f: FuncView) -> Option<CandidateView> {
    if forward::is_small(f) && !has_call(f) {
        candidate_from(f, loops::loops_of(f), 0)
    } else {
        None
    }
}

// ---------------------------------------------------------------------------
// Mathematical model: rewriting
// ---------------------------------------------------------------------------

/// The access to the slot in place of the element.
pub open spec fn moved_kind(f: FuncView, kind: KindView, p: AccessPathView, slot: ValueId) -> KindView {
    match kind {
        KindView::Load { ptr } => if path::path_of(f, ptr) == Some(p) {
            KindView::Load { ptr: slot }
        } else {
            kind
        },
        KindView::Store { ptr, value } => if path::path_of(f, ptr) == Some(p) {
            KindView::Store { ptr: slot, value }
        } else {
            kind
        },
        _ => kind,
    }
}

pub open spec fn accesses_moved(
    f: FuncView,
    insts: Seq<InstView>,
    p: AccessPathView,
    slot: ValueId,
) -> Seq<InstView> {
    Seq::new(
        insts.len(),
        |i: int|
            InstView { result: insts[i].result, kind: moved_kind(f, insts[i].kind, p, slot) },
    )
}

/// The function `f` with the accesses of the first `k` blocks of the list moved.
pub open spec fn blocks_moved(
    f: FuncView,
    blocks: Seq<BlockId>,
    p: AccessPathView,
    slot: ValueId,
    k: int,
) -> FuncView
    decreases k,
{
    if k <= 0 {
        f
    } else {
        emit::refilled(
            blocks_moved(f, blocks, p, slot, k - 1),
            blocks[k - 1].0,
            accesses_moved(f, f.block(blocks[k - 1]).insts, p, slot),
        )
    }
}

/// The function with the element in a slot while the loop runs. The slot is
/// filled before the first round, if there is one, and written back when the
/// loop is left.
pub open spec fn promoted(f: FuncView, c: CandidateView) -> FuncView {
    let slot = f.next_value();
    let p = c.shape.preheader.0;
    let start = f.blocks.len() as usize;
    let flush = (f.blocks.len() + 1) as usize;
    let g1 = blocks_moved(f, c.blocks, c.path, slot, c.blocks.len() as int);
    let g2 = emit::refilled(
        g1,
        c.header.0,
        edges::preds_renamed(f.block(c.header).insts, c.shape.preheader, BlockId(start)),
    );
    let g3 = emit::emitted(
        g2,
        p,
        KindView::Alloca { ty: c.ty },
        Type::Ptr(Box::new(c.ty)),
    );
    let guard = g3.next_value();
    let g4 = emit::emitted(
        g3,
        p,
        emit::comparison(c.shape.op, c.shape.induction.initial, c.shape.bound),
        Type::I1,
    );
    let g5 = emit::block_added(g4, "loop.memory.initialize"@);
    let initial = g5.next_value();
    let g6 = emit::emitted(g5, start, emit::load(c.pointer), c.ty);
    let g7 = emit::effected(g6, start, emit::store(slot, initial));
    let g8 = emit::ended(g7, start, Terminator::Jump(c.header));
    let g9 = emit::ended(g8, p, emit::branch(guard, start, c.shape.exit.0));
    let g10 = emit::block_added(g9, "loop.memory.flush"@);
    let last = g10.next_value();
    let g11 = emit::emitted(g10, flush, emit::load(slot), c.ty);
    let g12 = emit::effected(g11, flush, emit::store(c.pointer, last));
    let g13 = emit::ended(g12, flush, Terminator::Jump(c.shape.exit));
    match f.terminator(c.header) {
        Some(t) => emit::ended(
            g13,
            c.header.0,
            edges::redirected(t, c.shape.exit, BlockId(flush)),
        ),
        None => g13,
    }
}

/// The function after up to `fuel` promotions. A result that would not be valid
/// is discarded.
pub open spec fn promote_rounds(f: FuncView, fuel: nat) -> FuncView
    decreases fuel,
{
    match candidate_of(f) {
        Some(c) => if fuel > 0 && verify::valid(promoted(f, c)) {
            promote_rounds(promoted(f, c), (fuel - 1) as nat)
        } else {
            f
        },
        None => f,
    }
}

/// The effect on a function.
pub open spec fn elements_promoted(f: FuncView) -> FuncView {
    promote_rounds(f, forward::MAX_PROMOTIONS_PER_FUNCTION as nat)
}

// ---------------------------------------------------------------------------
// Executable functions: recognition
// ---------------------------------------------------------------------------

fn function_has_call(func: &Function) -> (r: bool)
    ensures
        r == has_call(func@),
{
    let ghost f = func@;
    let n = func.blocks.len();
    assert(n == f.blocks.len());
    for b in 0..n
        invariant
            func@ == f,
            n == f.blocks.len(),
            forall|c: BlockId, i: int|
                c.0 < b && f.has_inst(c, i) ==> !((#[trigger] f.inst(c, i)).kind is Call),
    {
        let count = func.blocks[b].insts.len();
        assert(count == f.block(BlockId(b)).insts.len());
        for i in 0..count
            invariant
                func@ == f,
                b < f.blocks.len(),
                count == f.block(BlockId(b)).insts.len(),
                forall|j: int|
                    0 <= j < i ==> !((#[trigger] f.inst(BlockId(b), j)).kind is Call),
        {
            let inst = &func.blocks[b].insts[i];
            assert(inst@ == f.inst(BlockId(b), i as int));
            if matches!(inst.kind, InstKind::Call { .. }) {
                assert(f.has_inst(BlockId(b), i as int));
                return true;
            }
        }
        assert forall|c: BlockId, i: int| c.0 < b + 1 && f.has_inst(c, i) implies !((
        #[trigger] f.inst(c, i)).kind is Call) by {
            if c.0 == b {
                assert(c == BlockId(b));
            }
        }
    }
    false
}

fn header_only_compares(func: &Function, b: BlockId) -> (r: bool)
    requires
        func@.has_block(b),
    ensures
        r == only_compares(func@.block(b).insts),
{
    let ghost insts = func@.block(b).insts;
    let n = func.blocks[b.0].insts.len();
    for i in 0..n
        invariant
            func@.has_block(b),
            insts == func@.block(b).insts,
            n == insts.len(),
            forall|j: int| 0 <= j < i ==> is_header_kind((#[trigger] insts[j]).kind),
    {
        let inst = &func.blocks[b.0].insts[i];
        assert(inst@ == insts[i as int]);
        match &inst.kind {
            InstKind::Nop => {},
            InstKind::Phi { .. } => {},
            InstKind::ICompare { .. } => {},
            _ => {
                assert(!is_header_kind(insts[i as int].kind));
                return false;
            },
        }
    }
    true
}

fn block_reads_marked(func: &Function, marks: &Vec<bool>, b: BlockId) -> (r: bool)
    requires
        func@.wf(),
        func@.has_block(b),
        marks.len() == func@.values.len(),
    ensures
        r == reads_marked(func@, marks@, b),
{
    let ghost f = func@;
    let n = func.blocks[b.0].insts.len();
    for i in 0..n
        invariant
            func@ == f,
            f.wf(),
            f.has_block(b),
            marks.len() == f.values.len(),
            n == f.block(b).insts.len(),
            forall|j: int|
                0 <= j < i ==> !flow::some_marked(
                    marks@,
                    edit::operands((#[trigger] f.inst(b, j)).kind),
                ),
    {
        let inst = &func.blocks[b.0].insts[i];
        assert(inst@ == f.inst(b, i as int));
        proof {
            query::lemma_inst_wf(f, b, i as int);
            verify::lemma_kind_wf_operands(inst@.kind, f.blocks.len(), f.values.len());
        }
        let reads = inst_operands(&inst.kind);
        if any_marked(marks, &reads) {
            assert(flow::some_marked(marks@, edit::operands(f.inst(b, i as int).kind)));
            return true;
        }
    }
    proof {
        query::lemma_terminator_wf(f, b);
    }
    assert(func.blocks@[b.0 as int]@ == f.block(b));
    let reads = terminator_operands(&func.blocks[b.0].terminator);
    any_marked(marks, &reads)
}

fn loop_definitions_do_not_escape(func: &Function, l: &NaturalLoop) -> (r: bool)
    requires
        func@.wf(),
        l@.within(func@.blocks.len()),
    ensures
        r == stays_inside(func@, l@),
{
    let ghost f = func@;
    assert(forall|k: int| 0 <= k < l.blocks.len() ==> f.has_block(#[trigger] l.blocks@[k])) by {
        assert forall|k: int| 0 <= k < l.blocks.len() implies f.has_block(
            #[trigger] l.blocks@[k],
        ) by {
            assert(l@.blocks[k].0 < f.blocks.len());
        }
    }
    let marks = mark_defined(func, &l.blocks);
    let n = func.blocks.len();
    assert(n == f.blocks.len());
    for b in 0..n
        invariant
            func@ == f,
            f.wf(),
            n == f.blocks.len(),
            marks@ == flow::defined_marks(f, l@.blocks),
            marks.len() == f.values.len(),
            forall|c: BlockId|
                c.0 < b && !l@.has(c) ==> !(#[trigger] reads_marked(f, marks@, c)),
    {
        let id = BlockId(b);
        if !l.contains(id) && block_reads_marked(func, &marks, id) {
            assert(f.has_block(id));
            return false;
        }
        assert forall|c: BlockId| c.0 < b + 1 && !l@.has(c) implies !(#[trigger] reads_marked(
            f,
            marks@,
            c,
        )) by {
            if c.0 == b {
                assert(c == id);
            }
        }
    }
    true
}

/// The parts of the shape exist.
pub open spec fn shape_in(f: FuncView, s: Shape) -> bool {
    &&& f.has_block(s.preheader)
    &&& f.has_block(s.exit)
    &&& f.has_block(s.taken)
    &&& f.has_value(s.bound)
    &&& f.has_value(s.induction.phi)
    &&& f.has_value(s.induction.initial)
}

fn find_shape(func: &Function, dom: &Dominators, l: &NaturalLoop) -> (r: Option<Shape>)
    requires
        func@.wf(),
        dom.of(func@),
        l@.within(func@.blocks.len()),
    ensures
        r == shape_of(func@, l@),
        r matches Some(s) ==> shape_in(func@, s),
{
    let ghost f = func@;
    let preheader = l.dedicated_preheader?;
    if l.exit_edges.len() != 1 || l.exit_edges[0].0 != l.header || l.unique_latch().is_none() {
        return None;
    }
    let exit = l.exit_edges[0].1;
    assert(l@.exit_edges[0].1.0 < f.blocks.len());
    let target = jump_target(func, preheader)?;
    assert(forall|k: int| 0 <= k < l.blocks.len() ==> f.has_block(#[trigger] l.blocks@[k])) by {
        assert forall|k: int| 0 <= k < l.blocks.len() implies f.has_block(
            #[trigger] l.blocks@[k],
        ) by {
            assert(l@.blocks[k].0 < f.blocks.len());
        }
    }
    if target != l.header || !header_only_compares(func, l.header) || block_has_phi(func, exit)
        || !only_loads_and_stores(func, &l.blocks) {
        return None;
    }
    let iv = header_induction(func, l)?;
    let (op, bound, taken) = active_header_comparison(func, l, iv.phi)?;
    if value_available_at_block(func, dom, iv.initial, preheader) && value_available_at_block(
        func,
        dom,
        bound,
        preheader,
    ) && loop_definitions_do_not_escape(func, l) {
        Some(Shape { preheader, exit, induction: iv, op, bound, taken })
    } else {
        None
    }
}

fn is_access(func: &Function, inst: &Inst, p: &AccessPath, store: bool) -> (r: bool)
    requires
        func@.wf(),
        edit::inst_wf(inst@, func@.blocks.len(), func@.values.len()),
    ensures
        r == accesses(func@, inst@.kind, p@, store),
{
    match &inst.kind {
        InstKind::Load { ptr } => !store && leads_to(func, *ptr, p),
        InstKind::Store { ptr, .. } => store && leads_to(func, *ptr, p),
        _ => false,
    }
}

fn find_access(func: &Function, blocks: &Vec<BlockId>, p: &AccessPath, store: bool) -> (r: bool)
    requires
        func@.wf(),
        forall|k: int| 0 <= k < blocks.len() ==> func@.has_block(#[trigger] blocks@[k]),
    ensures
        r == has_access(func@, blocks@, p@, store),
{
    let ghost f = func@;
    let n = blocks.len();
    for k in 0..n
        invariant
            func@ == f,
            f.wf(),
            n == blocks.len(),
            forall|k: int| 0 <= k < blocks.len() ==> f.has_block(#[trigger] blocks@[k]),
            forall|b: BlockId, j: int|
                access::seen(f, blocks@, k as int, 0, b, j) ==> !accesses(
                    f,
                    (#[trigger] f.inst(b, j)).kind,
                    p@,
                    store,
                ),
    {
        let b = blocks[k];
        assert(f.has_block(blocks@[k as int]));
        let count = func.blocks[b.0].insts.len();
        for i in 0..count
            invariant
                func@ == f,
                f.wf(),
                k < blocks.len(),
                b == blocks@[k as int],
                f.has_block(b),
                count == f.block(b).insts.len(),
                forall|c: BlockId, j: int|
                    access::seen(f, blocks@, k as int, i as int, c, j) ==> !accesses(
                        f,
                        (#[trigger] f.inst(c, j)).kind,
                        p@,
                        store,
                    ),
        {
            let inst = &func.blocks[b.0].insts[i];
            assert(inst@ == f.inst(b, i as int));
            proof {
                query::lemma_inst_wf(f, b, i as int);
            }
            if is_access(func, inst, p, store) {
                assert(blocks@.contains(b));
                assert(accesses(f, f.inst(b, i as int).kind, p@, store));
                return true;
            }
            assert forall|c: BlockId, j: int|
                access::seen(f, blocks@, k as int, i + 1, c, j) implies !accesses(
                f,
                (#[trigger] f.inst(c, j)).kind,
                p@,
                store,
            ) by {
                if !access::seen(f, blocks@, k as int, i as int, c, j) {
                    assert(c == b && j == i);
                }
            }
        }
        assert forall|c: BlockId, j: int| access::seen(f, blocks@, k + 1, 0, c, j) implies !accesses(
            f,
            (#[trigger] f.inst(c, j)).kind,
            p@,
            store,
        ) by {
            assert(access::seen(f, blocks@, k as int, count as int, c, j));
        }
    }
    assert forall|b: BlockId, i: int| blocks@.contains(b) && f.has_inst(b, i) implies !accesses(
        f,
        (#[trigger] f.inst(b, i)).kind,
        p@,
        store,
    ) by {
        let m = choose|m: int| 0 <= m < blocks@.len() && blocks@[m] == b;
        assert(blocks@[m] == b);
        assert(access::seen(f, blocks@, n as int, 0, b, i));
    }
    false
}

pub open spec fn element_view(r: Option<(AccessPath, Type)>) -> Option<(AccessPathView, Type)> {
    match r {
        Some((p, ty)) => Some((p@, ty)),
        None => None,
    }
}

fn match_element(func: &Function, dom: &Dominators, l: &NaturalLoop, s: Shape, ptr: ValueId) -> (r:
    Option<(AccessPath, Type)>)
    requires
        func@.wf(),
        dom.of(func@),
        l@.within(func@.blocks.len()),
        shape_in(func@, s),
        func@.has_value(ptr),
    ensures
        element_view(r) == element_of(func@, l@, s, ptr),
{
    let ghost f = func@;
    if !is_loop_invariant(func, l, ptr) || !value_available_at_block(func, dom, ptr, s.preheader) {
        return None;
    }
    let p = access_path(func, ptr)?;
    assert(func.values@[ptr.0 as int]@ == f.value(ptr));
    let ty = match &func.values[ptr.0].ty {
        Type::Ptr(pointee) => if scalar(&**pointee) {
            (**pointee).clone()
        } else {
            return None;
        },
        _ => return None,
    };
    if p.indices.len() < 2 || local(func, p.root) {
        return None;
    }
    assert(forall|k: int| 0 <= k < l.blocks.len() ==> f.has_block(#[trigger] l.blocks@[k])) by {
        assert forall|k: int| 0 <= k < l.blocks.len() implies f.has_block(
            #[trigger] l.blocks@[k],
        ) by {
            assert(l@.blocks[k].0 < f.blocks.len());
        }
    }
    let taken = vec![s.taken];
    assert(taken@ =~= seq![s.taken]);
    if find_access(func, &l.blocks, &p, false) && find_access(func, &l.blocks, &p, true)
        && find_access(func, &taken, &p, false) && loop_memory_is_disjoint(
        func,
        dom,
        l,
        s.induction,
        &p,
        true,
    ) {
        Some((p, ty))
    } else {
        None
    }
}

pub open spec fn candidate_view(r: Option<Candidate>) -> Option<CandidateView> {
    match r {
        Some(c) => Some(c@),
        None => None,
    }
}

/// The parts of the candidate exist.
pub open spec fn candidate_in(f: FuncView, c: CandidateView) -> bool {
    &&& shape_in(f, c.shape)
    &&& f.has_block(c.header)
    &&& forall|k: int| 0 <= k < c.blocks.len() ==> f.has_block(#[trigger] c.blocks[k])
}

fn find_in_block(func: &Function, dom: &Dominators, l: &NaturalLoop, s: Shape, b: BlockId) -> (r:
    Option<Candidate>)
    requires
        func@.wf(),
        dom.of(func@),
        l@.within(func@.blocks.len()),
        shape_in(func@, s),
        func@.has_block(b),
    ensures
        candidate_view(r) == candidate_in_block(func@, l@, s, func@.block(b).insts, 0),
        r matches Some(c) ==> candidate_in(func@, c@),
{
    let ghost f = func@;
    let ghost insts = f.block(b).insts;
    let n = func.blocks[b.0].insts.len();
    for i in 0..n
        invariant
            func@ == f,
            f.wf(),
            dom.of(f),
            l@.within(f.blocks.len()),
            shape_in(f, s),
            f.has_block(b),
            insts == f.block(b).insts,
            n == insts.len(),
            candidate_in_block(f, l@, s, insts, 0) == candidate_in_block(f, l@, s, insts, i as int),
    {
        let inst = &func.blocks[b.0].insts[i];
        assert(inst@ == f.inst(b, i as int));
        proof {
            query::lemma_inst_wf(f, b, i as int);
        }
        let address = match &inst.kind {
            InstKind::Load { ptr } => Some(*ptr),
            InstKind::Store { ptr, .. } => Some(*ptr),
            _ => None,
        };
        if let Some(ptr) = address {
            if let Some((p, ty)) = match_element(func, dom, l, s, ptr) {
                let c = Candidate {
                    pointer: ptr,
                    path: p,
                    ty,
                    header: l.header,
                    blocks: l.copied_blocks(),
                    shape: s,
                };
                assert(candidate_in(f, c@)) by {
                    assert forall|k: int| 0 <= k < c@.blocks.len() implies f.has_block(
                        #[trigger] c@.blocks[k],
                    ) by {
                        assert(l@.blocks[k].0 < f.blocks.len());
                    }
                }
                return Some(c);
            }
        }
    }
    None
}

fn find_in_loop(func: &Function, dom: &Dominators, l: &NaturalLoop) -> (r: Option<Candidate>)
    requires
        func@.wf(),
        dom.of(func@),
        l@.within(func@.blocks.len()),
    ensures
        candidate_view(r) == candidate_at(func@, l@),
        r matches Some(c) ==> candidate_in(func@, c@),
{
    let ghost f = func@;
    let s = find_shape(func, dom, l)?;
    let n = l.blocks.len();
    for k in 0..n
        invariant
            func@ == f,
            f.wf(),
            dom.of(f),
            l@.within(f.blocks.len()),
            shape_in(f, s),
            n == l.blocks.len(),
            candidate_at(f, l@) == candidate_in_loop(f, l@, s, k as int),
    {
        assert(l@.blocks[k as int].0 < f.blocks.len());
        if let Some(c) = find_in_block(func, dom, l, s, l.blocks[k]) {
            return Some(c);
        }
    }
    None
}

fn find_candidate(func: &Function) -> (r: Option<Candidate>)
    requires
        func@.wf(),
    ensures
        candidate_view(r) == candidate_of(func@),
        r matches Some(c) ==> candidate_in(func@, c@),
{
    let ghost f = func@;
    if !is_small_function(func) || function_has_call(func) {
        return None;
    }
    let graph = ControlFlowGraph::new(func);
    let dom = Dominators::new(func, &graph);
    let info = LoopInfo::new(func, &graph, &dom);
    let list = info.loops();
    let ghost views = loops::loops_of(f);
    let n = list.len();
    assert(views.len() == n);
    for k in 0..n
        invariant
            func@ == f,
            f.wf(),
            dom.of(f),
            n == list.len(),
            views == loops::loops_of(f),
            views == loops::loops_view(list@),
            views.len() == n,
            candidate_of(f) == candidate_from(f, views, k as int),
    {
        assert(views[k as int] == list@[k as int]@);
        assert(func.blocks.len() == f.blocks.len());
        proof {
            loops::lemma_listed_loop(f, k as int);
        }
        if let Some(c) = find_in_loop(func, &dom, &list[k]) {
            return Some(c);
        }
    }
    None
}

// ---------------------------------------------------------------------------
// Executable functions: rewriting
// ---------------------------------------------------------------------------

fn move_accesses(func: &Function, b: BlockId, p: &AccessPath, slot: ValueId) -> (r: Vec<Inst>)
    requires
        func@.wf(),
        func@.has_block(b),
    ensures
        ir::insts_view(r@) == accesses_moved(func@, func@.block(b).insts, p@, slot),
{
    let ghost f = func@;
    let ghost insts = f.block(b).insts;
    let mut list: Vec<Inst> = Vec::new();
    let n = func.blocks[b.0].insts.len();
    for i in 0..n
        invariant
            func@ == f,
            f.wf(),
            f.has_block(b),
            insts == f.block(b).insts,
            n == insts.len(),
            list.len() == i,
            forall|j: int|
                0 <= j < i ==> (#[trigger] list@[j])@ == (InstView {
                    result: insts[j].result,
                    kind: moved_kind(f, insts[j].kind, p@, slot),
                }),
    {
        let inst = &func.blocks[b.0].insts[i];
        assert(inst@ == f.inst(b, i as int));
        proof {
            query::lemma_inst_wf(f, b, i as int);
        }
        let kind = match &inst.kind {
            InstKind::Load { ptr } => if leads_to(func, *ptr, p) {
                InstKind::Load { ptr: slot }
            } else {
                inst.kind.clone()
            },
            InstKind::Store { ptr, value } => if leads_to(func, *ptr, p) {
                InstKind::Store { ptr: slot, value: *value }
            } else {
                inst.kind.clone()
            },
            kind => kind.clone(),
        };
        list.push(Inst { result: inst.result, kind });
    }
    assert(ir::insts_view(list@) =~= accesses_moved(f, insts, p@, slot));
    list
}

fn promote_candidate(func: &mut Function, c: &Candidate)
    requires
        old(func)@.wf(),
        candidate_in(old(func)@, c@),
    ensures
        final(func)@ == promoted(old(func)@, c@),
{
    let source = func.clone();
    let ghost f = func@;
    assert(func.values.len() == f.values.len());
    assert(func.blocks.len() == f.blocks.len());
    let slot = ValueId(func.values.len());
    let p = c.shape.preheader.0;
    let start = func.blocks.len();
    let n = c.blocks.len();
    for k in 0..n
        invariant
            source@ == f,
            f.wf(),
            n == c.blocks.len(),
            candidate_in(f, c@),
            slot == f.next_value(),
            func@.blocks.len() == f.blocks.len(),
            func@.values.len() == f.values.len(),
            func@ == blocks_moved(f, c@.blocks, c@.path, slot, k as int),
    {
        let b = c.blocks[k];
        assert(f.has_block(c@.blocks[k as int]));
        let list = move_accesses(&source, b, &c.path, slot);
        refill(func, b.0, list);
    }
    assert(source.blocks@[c.header.0 as int]@ == f.block(c.header));
    let phis = rename_preds(&source.blocks[c.header.0].insts, c.shape.preheader, BlockId(start));
    refill(func, c.header.0, phis);
    emit(
        func,
        p,
        InstKind::Alloca { ty: c.ty.clone() },
        Type::Ptr(Box::new(c.ty.clone())),
    );
    let guard = emit_comparison(func, p, c.shape.op, c.shape.induction.initial, c.shape.bound);
    new_block(func, "loop.memory.initialize");
    let initial = emit(func, start, InstKind::Load { ptr: c.pointer }, c.ty.clone());
    emit_store(func, start, slot, initial);
    end_jump(func, start, c.header.0);
    end_branch(func, p, guard, start, c.shape.exit.0);
    let flush = new_block(func, "loop.memory.flush");
    let last = emit(func, flush, InstKind::Load { ptr: slot }, c.ty.clone());
    emit_store(func, flush, c.pointer, last);
    end_jump(func, flush, c.shape.exit.0);
    if let Some(t) = &source.blocks[c.header.0].terminator {
        end_with(func, c.header.0, redirect(t, c.shape.exit, BlockId(flush)));
    }
}

/// Keeps elements of arrays in slots while loops run.
pub fn promote_elements(func: &mut Function)
    requires
        old(func)@.wf(),
    ensures
        final(func)@ == elements_promoted(old(func)@),
        final(func)@.wf(),
{
    let ghost f = func@;
    let mut left: usize = forward::MAX_PROMOTIONS_PER_FUNCTION;
    let mut on = true;
    while on && left > 0
        invariant
            func@.wf(),
            on ==> elements_promoted(f) == promote_rounds(func@, left as nat),
            !on ==> elements_promoted(f) == func@,
        decreases left,
    {
        left = left - 1;
        match find_candidate(func) {
            Some(c) => {
                let before = func.clone();
                promote_candidate(func, &c);
                if func.verify().is_err() {
                    *func = before;
                    on = false;
                }
            },
            None => {
                on = false;
            },
        }
    }
}

} // verus!
