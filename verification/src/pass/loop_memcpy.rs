//! Loops that copy the elements of an array to another, one by one, become a
//! single copy.
use vstd::prelude::*;

use crate::cfg;
use crate::cfg::{reach_from, ControlFlowGraph, Dominators};
use crate::edit;
use crate::emit;
use crate::emit::{emit_effect, end_jump, refill};
use crate::ir;
use crate::ir::{
    BlockId, FuncView, Function, Inst, InstKind, InstView, KindView, Module, ModuleView,
    Terminator, Type, ValueId,
};
use crate::loops;
use crate::loops::{LoopInfo, LoopView, NaturalLoop};
use crate::objects;
use crate::objects::{build_source_graph, object, same_object};
use crate::pass::loop_idiom;
use crate::pass::loop_idiom::{
    defines_value, find_frame, int_literal, is_small_function, scalar, set_condition,
    used_outside_loop, Frame, What,
};
use crate::patterns;
use crate::patterns::{collect_phi_results, contains_value};
use crate::query;
use crate::query::{active_insts, defining_inst_kind, jump_target, unique_incoming};
use crate::verify;

verus! {

/// A loop that copies an array.
#[derive(Clone, Copy, PartialEq, Eq, Structural)]
pub struct Plan {
    pub frame: Frame,
    pub initial_dst: ValueId,
    pub initial_src: ValueId,
    /// Where the body stores.
    pub store_index: usize,
}

// ---------------------------------------------------------------------------
// Mathematical model: objects
// ---------------------------------------------------------------------------

/// The value is computed from other addresses.
pub open spec fn is_passed_on(f: FuncView, v: ValueId) -> bool {
    match query::definition(f, v) {
        Some(KindView::Gep { .. }) => true,
        Some(KindView::Phi { incomings }) => incomings.len() > 0,
        _ => false,
    }
}

/// The address lies in the object `o`, whichever way it was computed.
pub open spec fn lies_in(f: FuncView, v: ValueId, o: ValueId) -> bool {
    &&& f.has_value(o)
    &&& objects::comes_from(f, v, o)
    &&& objects::is_object(f, o)
    &&& forall|w: ValueId|
        f.has_value(w) && #[trigger] objects::comes_from(f, v, w) ==> is_passed_on(f, w) || (objects::is_object(f, w)
            && objects::is_same_object(f, w, o))
}

/// The addresses lie in two objects.
pub open spec fn are_disjoint(f: FuncView, a: ValueId, b: ValueId) -> bool {
    exists|x: ValueId, y: ValueId| #[trigger]
        lies_in(f, a, x) && #[trigger] lies_in(f, b, y) && !objects::is_same_object(f, x, y)
}

// ---------------------------------------------------------------------------
// Mathematical model: loops
// ---------------------------------------------------------------------------

/// The first load with a result, from place `k` on: the result and the address.
pub open spec fn load_from(insts: Seq<InstView>, k: int) -> Option<(ValueId, ValueId)>
    decreases insts.len() - k,
{
    if k < 0 || k >= insts.len() {
        None
    } else {
        match (insts[k].result, insts[k].kind) {
            (Some(r), KindView::Load { ptr }) => Some((r, ptr)),
            _ => load_from(insts, k + 1),
        }
    }
}

/// The first store of the value, from place `k` on: where it stands, and the
/// address.
pub open spec fn store_of_from(insts: Seq<InstView>, v: ValueId, k: int) -> Option<(usize, ValueId)>
    decreases insts.len() - k,
{
    if k < 0 || k >= insts.len() {
        None
    } else {
        match insts[k].kind {
            KindView::Store { ptr, value } => if value == v {
                Some((k as usize, ptr))
            } else {
                store_of_from(insts, v, k + 1)
            },
            _ => store_of_from(insts, v, k + 1),
        }
    }
}

/// The incoming value of a phi.
pub open spec fn incoming_of(f: FuncView, phi: ValueId, pred: BlockId) -> Option<ValueId> {
    match query::definition(f, phi) {
        Some(KindView::Phi { incomings }) => query::sole_incoming(incomings, pred),
        _ => None,
    }
}

/// The value is the address one element behind the pointer.
pub open spec fn is_unit_step(f: FuncView, next: ValueId, pointer: ValueId) -> bool {
    match query::definition(f, next) {
        Some(KindView::Gep { base, indices }) => base == pointer && indices.len() == 1
            && loop_idiom::literal_of(f, indices[0]) == Some(1i32),
        _ => false,
    }
}

/// The pointer moves on by one element each round; where it starts.
pub open spec fn walk_of(f: FuncView, fr: Frame, pointer: ValueId) -> Option<ValueId> {
    match (
        incoming_of(f, pointer, fr.preheader),
        incoming_of(f, pointer, fr.body),
    ) {
        (Some(initial), Some(next)) => if is_unit_step(f, next, pointer) && loop_idiom::defines(
            f,
            fr.body,
            next,
            What::Any,
        ) {
            Some(initial)
        } else {
            None
        },
        _ => None,
    }
}

/// The header holds three phis and the condition, the body five instructions.
pub open spec fn sizes_fit(f: FuncView, fr: Frame) -> bool {
    let phis = patterns::phi_results(f, fr.header);
    &&& query::jump_of(f, fr.preheader) == Some(fr.header)
    &&& phis.len() == 3
    &&& query::active(f, fr.header).len() == 4
    &&& phis.contains(fr.induction.phi)
    &&& loop_idiom::defines(f, fr.header, fr.condition, What::Any)
    &&& query::active(f, fr.body).len() == 5
    &&& loop_idiom::defines(f, fr.body, fr.induction.next, What::Any)
}

/// Both pointers point to scalars of the type that is loaded.
pub open spec fn types_fit(f: FuncView, src: ValueId, dst: ValueId, loaded: ValueId) -> bool {
    match (f.value(src).ty, f.value(dst).ty) {
        (Type::Ptr(x), Type::Ptr(y)) => *x == *y && f.value(loaded).ty == *x
            && loop_idiom::is_scalar(*x),
        _ => false,
    }
}

/// Nothing that the loop computes is read outside of it.
pub open spec fn is_closed(f: FuncView, l: LoopView, fr: Frame) -> bool {
    &&& forall|k: int|
        0 <= k < patterns::phi_results(f, fr.header).len() ==> !loop_idiom::is_read_outside(
            f,
            l,
            #[trigger] patterns::phi_results(f, fr.header)[k],
        )
    &&& forall|i: int|
        0 <= i < f.block(fr.body).insts.len() && !((#[trigger] f.inst(fr.body, i)).kind is Nop)
            ==> (f.inst(fr.body, i).result matches Some(r) ==> !loop_idiom::is_read_outside(
            f,
            l,
            r,
        ))
}

/// The pointers of the loop fit.
pub open spec fn pointers_fit(
    f: FuncView,
    fr: Frame,
    src: ValueId,
    dst: ValueId,
    loaded: ValueId,
) -> bool {
    let phis = patterns::phi_results(f, fr.header);
    &&& src != dst
    &&& phis.contains(src)
    &&& phis.contains(dst)
    &&& types_fit(f, src, dst, loaded)
}

/// The loop as one that copies an array.
pub open spec fn plan_at(f: FuncView, l: LoopView) -> Option<Plan> {
    match loop_idiom::frame_of(f, l) {
        Some(frame) => if sizes_fit(f, frame) {
            let insts = f.block(frame.body).insts;
            match load_from(insts, 0) {
                Some((loaded, src)) => match store_of_from(insts, loaded, 0) {
                    Some((store_index, dst)) => if pointers_fit(f, frame, src, dst, loaded) {
                        match (walk_of(f, frame, src), walk_of(f, frame, dst)) {
                            (Some(initial_src), Some(initial_dst)) => if are_disjoint(
                                f,
                                initial_src,
                                initial_dst,
                            ) && is_closed(f, l, frame) {
                                Some(Plan { frame, initial_dst, initial_src, store_index })
                            } else {
                                None
                            },
                            _ => None,
                        }
                    } else {
                        None
                    },
                    None => None,
                },
                None => None,
            }
        } else {
            None
        },
        None => None,
    }
}

pub open spec fn plan_from(f: FuncView, list: Seq<LoopView>, k: int) -> Option<Plan>
    decreases list.len() - k,
{
    if k < 0 || k >= list.len() {
        None
    } else {
        match plan_at(f, list[k]) {
            Some(p) => Some(p),
            None => plan_from(f, list, k + 1),
        }
    }
}

/// The first loop that copies an array.
pub open spec fn plan_of(f: FuncView) -> Option<Plan> {
    if loop_idiom::is_small(f) {
        plan_from(f, loops::loops_of(f), 0)
    } else {
        None
    }
}

/// The header without the phis.
pub open spec fn header_insts(f: FuncView, p: Plan) -> Seq<InstView> {
    let insts = f.block(p.frame.header).insts;
    let kept = Seq::new(
        insts.len(),
        |i: int|
            if insts[i].kind is Phi {
                edit::nop()
            } else {
                insts[i]
            },
    );
    loop_idiom::condition_set(kept, p.frame.condition, p.frame.induction.initial)
}

/// So many instructions that do nothing.
pub open spec fn nops(n: nat) -> Seq<InstView> {
    Seq::new(n, |i: int| edit::nop())
}

/// The copy of as many elements as the loop has rounds.
pub open spec fn copying(p: Plan) -> KindView {
    KindView::MemCopy {
        dst: p.initial_dst,
        src: p.initial_src,
        element_bytes: loop_idiom::ELEMENT_BYTES as i32,
        count: p.frame.bound,
    }
}

/// The function with the loop replaced: its body runs once, if at all.
pub open spec fn replaced(f: FuncView, p: Plan) -> FuncView {
    let body = p.frame.body.0;
    let f1 = emit::refilled(f, p.frame.header.0, header_insts(f, p));
    let f2 = emit::refilled(f1, body, nops(f.block(p.frame.body).insts.len()));
    let f3 = emit::effected(f2, body, copying(p));
    emit::ended(f3, body, Terminator::Jump(p.frame.exit))
}

/// The function after up to `fuel` replacements. A result that would not be
/// valid is discarded.
pub open spec fn rounds(f: FuncView, fuel: nat) -> FuncView
    decreases fuel,
{
    match plan_of(f) {
        Some(p) => if fuel > 0 && verify::valid(replaced(f, p)) {
            rounds(replaced(f, p), (fuel - 1) as nat)
        } else {
            f
        },
        None => f,
    }
}

/// The effect on one function: each replacement takes a store away, so there are
/// no more of them than stores.
pub open spec fn condensed(f: FuncView) -> FuncView {
    rounds(f, loop_idiom::stores_in(f))
}

pub open spec fn condensed_module(m: ModuleView) -> ModuleView {
    ModuleView { funcs: m.funcs.map_values(|f: FuncView| condensed(f)), ..m }
}

// ---------------------------------------------------------------------------
// Executable functions
// ---------------------------------------------------------------------------

fn passed_on(func: &Function, v: ValueId) -> (r: bool)
    ensures
        r == is_passed_on(func@, v),
{
    match defining_inst_kind(func, v) {
        Some(InstKind::Gep { .. }) => true,
        Some(InstKind::Phi { incomings }) => incomings.len() > 0,
        _ => false,
    }
}

/// The object that an address lies in, any of its values.
fn pointer_object(func: &Function, graph: &Vec<Vec<BlockId>>, v: ValueId) -> (r: Option<ValueId>)
    requires
        func@.wf(),
        func@.has_value(v),
        cfg::lists_view(graph@) == objects::source_graph(func@),
        cfg::graph_wf(objects::source_graph(func@)),
    ensures
        match r {
            Some(o) => lies_in(func@, v, o),
            None => forall|o: ValueId| !(#[trigger] lies_in(func@, v, o)),
        },
{
    let ghost f = func@;
    assert(cfg::lists_view(graph@).len() == graph.len());
    assert(objects::source_graph(f).len() == f.values.len());
    let marks = reach_from(graph, BlockId(v.0), None);
    let n = func.values.len();
    assert(n == f.values.len());
    let mut found: Option<ValueId> = None;
    for w in 0..n
        invariant
            func@ == f,
            f.wf(),
            n == f.values.len(),
            marks.len() == n,
            forall|u: int|
                0 <= u < n ==> (#[trigger] marks@[u] <==> objects::comes_from(
                    f,
                    v,
                    ValueId(u as usize),
                )),
            match found {
                Some(o) => o.0 < w && objects::comes_from(f, v, o) && objects::is_object(f, o) && forall|u: ValueId|
                    u.0 < w && #[trigger] objects::comes_from(f, v, u) ==> is_passed_on(f, u) || (objects::is_object(
                        f,
                        u,
                    ) && objects::is_same_object(f, u, o)),
                None => forall|u: ValueId|
                    u.0 < w && #[trigger] objects::comes_from(f, v, u) ==> is_passed_on(f, u),
            },
    {
        let id = ValueId(w);
        assert(marks@[w as int] <==> objects::comes_from(f, v, id));
        if marks[w] && !passed_on(func, id) {
            if !object(func, id) {
                assert forall|o: ValueId| !(#[trigger] lies_in(f, v, o)) by {
                    assert(objects::comes_from(f, v, id));
                }
                return None;
            }
            match found {
                Some(o) => {
                    if !same_object(func, id, o) {
                        assert forall|x: ValueId| !(#[trigger] lies_in(f, v, x)) by {
                            assert(objects::comes_from(f, v, id));
                            assert(objects::comes_from(f, v, o));
                            if lies_in(f, v, x) {
                                assert(objects::is_same_object(f, id, x));
                                assert(is_passed_on(f, o) || objects::is_same_object(f, o, x));
                            }
                        }
                        return None;
                    }
                },
                None => {
                    found = Some(id);
                },
            }
        }
    }
    if found.is_none() {
        assert forall|o: ValueId| !(#[trigger] lies_in(f, v, o)) by {
            if lies_in(f, v, o) {
                assert(objects::comes_from(f, v, o));
                assert(is_passed_on(f, o));
            }
        }
    }
    found
}

fn proven_disjoint_objects(func: &Function, a: ValueId, b: ValueId) -> (r: bool)
    requires
        func@.wf(),
        func@.has_value(a),
        func@.has_value(b),
    ensures
        r == are_disjoint(func@, a, b),
{
    let ghost f = func@;
    let graph = build_source_graph(func);
    match (pointer_object(func, &graph, a), pointer_object(func, &graph, b)) {
        (Some(x), Some(y)) => {
            assert(lies_in(f, a, x));
            assert(lies_in(f, b, y));
            let r = !same_object(func, x, y);
            proof {
                if are_disjoint(f, a, b) {
                    let (p, q) = choose|p: ValueId, q: ValueId| #[trigger]
                        lies_in(f, a, p) && #[trigger] lies_in(f, b, q) && !objects::is_same_object(f, p, q);
                    assert(objects::comes_from(f, a, x) && objects::comes_from(f, a, p));
                    assert(objects::comes_from(f, b, y) && objects::comes_from(f, b, q));
                    assert(!is_passed_on(f, x) && !is_passed_on(f, p));
                    assert(objects::is_same_object(f, x, p));
                    assert(objects::is_same_object(f, y, q));
                }
            }
            r
        },
        _ => false,
    }
}

fn find_load(func: &Function, b: BlockId) -> (r: Option<(ValueId, ValueId)>)
    requires
        func@.wf(),
        func@.has_block(b),
    ensures
        r == load_from(func@.block(b).insts, 0),
        r matches Some((v, p)) ==> func@.has_value(v) && func@.has_value(p),
{
    let ghost insts = func@.block(b).insts;
    let n = func.blocks[b.0].insts.len();
    for i in 0..n
        invariant
            func@.wf(),
            func@.has_block(b),
            insts == func@.block(b).insts,
            n == insts.len(),
            load_from(insts, 0) == load_from(insts, i as int),
    {
        let inst = &func.blocks[b.0].insts[i];
        assert(inst@ == func@.inst(b, i as int));
        proof {
            query::lemma_inst_wf(func@, b, i as int);
        }
        if let InstKind::Load { ptr } = &inst.kind {
            if let Some(r) = inst.result {
                return Some((r, *ptr));
            }
        }
    }
    None
}

fn find_store_of(func: &Function, b: BlockId, v: ValueId) -> (r: Option<(usize, ValueId)>)
    requires
        func@.wf(),
        func@.has_block(b),
    ensures
        r == store_of_from(func@.block(b).insts, v, 0),
        match r {
            Some((i, p)) => func@.has_value(p) && i < func@.block(b).insts.len() && func@.inst(
                b,
                i as int,
            ).kind is Store,
            None => true,
        },
{
    let ghost insts = func@.block(b).insts;
    let n = func.blocks[b.0].insts.len();
    for i in 0..n
        invariant
            func@.wf(),
            func@.has_block(b),
            insts == func@.block(b).insts,
            n == insts.len(),
            store_of_from(insts, v, 0) == store_of_from(insts, v, i as int),
    {
        let inst = &func.blocks[b.0].insts[i];
        assert(inst@ == func@.inst(b, i as int));
        proof {
            query::lemma_inst_wf(func@, b, i as int);
        }
        if let InstKind::Store { ptr, value } = &inst.kind {
            if *value == v {
                return Some((i, *ptr));
            }
        }
    }
    None
}

fn phi_incoming(func: &Function, phi: ValueId, pred: BlockId) -> (r: Option<ValueId>)
    requires
        func@.wf(),
    ensures
        r == incoming_of(func@, phi, pred),
        r matches Some(v) ==> func@.has_value(v),
{
    proof {
        query::lemma_definition_wf(func@, phi);
    }
    match defining_inst_kind(func, phi) {
        Some(InstKind::Phi { incomings }) => {
            proof {
                query::lemma_sole_incoming_wf(
                    incomings@,
                    pred,
                    func@.blocks.len(),
                    func@.values.len(),
                );
            }
            unique_incoming(incomings, pred)
        },
        _ => None,
    }
}

fn is_unit_pointer_step(func: &Function, next: ValueId, pointer: ValueId) -> (r: bool)
    ensures
        r == is_unit_step(func@, next, pointer),
{
    match defining_inst_kind(func, next) {
        Some(InstKind::Gep { base, indices }) => *base == pointer && indices.len() == 1
            && match int_literal(func, indices[0]) {
            Some(i) => i == 1,
            None => false,
        },
        _ => false,
    }
}

fn find_walk(func: &Function, fr: Frame, pointer: ValueId) -> (r: Option<ValueId>)
    requires
        func@.wf(),
        loop_idiom::frame_in(func@, fr),
    ensures
        r == walk_of(func@, fr, pointer),
        r matches Some(v) ==> func@.has_value(v),
{
    let initial = phi_incoming(func, pointer, fr.preheader)?;
    let next = phi_incoming(func, pointer, fr.body)?;
    if is_unit_pointer_step(func, next, pointer) && defines_value(func, fr.body, next, What::Any) {
        Some(initial)
    } else {
        None
    }
}

fn check_types(func: &Function, src: ValueId, dst: ValueId, loaded: ValueId) -> (r: bool)
    requires
        func@.has_value(src),
        func@.has_value(dst),
        func@.has_value(loaded),
    ensures
        r == types_fit(func@, src, dst, loaded),
{
    assert(func.values@[src.0 as int]@ == func@.value(src));
    assert(func.values@[dst.0 as int]@ == func@.value(dst));
    assert(func.values@[loaded.0 as int]@ == func@.value(loaded));
    match (&func.values[src.0].ty, &func.values[dst.0].ty) {
        (Type::Ptr(x), Type::Ptr(y)) => (**x).same(&**y) && func.values[loaded.0].ty.same(&**x)
            && scalar(&**x),
        _ => false,
    }
}

fn check_closed(func: &Function, l: &NaturalLoop, fr: Frame) -> (r: bool)
    requires
        func@.wf(),
        loop_idiom::frame_in(func@, fr),
    ensures
        r == is_closed(func@, l@, fr),
{
    let phis = collect_phi_results(func, fr.header);
    let n = phis.len();
    for k in 0..n
        invariant
            n == phis.len(),
            phis@ == patterns::phi_results(func@, fr.header),
            forall|j: int|
                0 <= j < k ==> !loop_idiom::is_read_outside(
                    func@,
                    l@,
                    #[trigger] patterns::phi_results(func@, fr.header)[j],
                ),
    {
        if used_outside_loop(func, l, phis[k]) {
            return false;
        }
    }
    let n = func.blocks[fr.body.0].insts.len();
    for i in 0..n
        invariant
            loop_idiom::frame_in(func@, fr),
            n == func@.block(fr.body).insts.len(),
            forall|j: int|
                0 <= j < i && !((#[trigger] func@.inst(fr.body, j)).kind is Nop) ==> (func@.inst(
                    fr.body,
                    j,
                ).result matches Some(r) ==> !loop_idiom::is_read_outside(func@, l@, r)),
    {
        let inst = &func.blocks[fr.body.0].insts[i];
        assert(inst@ == func@.inst(fr.body, i as int));
        if !matches!(inst.kind, InstKind::Nop) {
            if let Some(r) = inst.result {
                if used_outside_loop(func, l, r) {
                    return false;
                }
            }
        }
    }
    true
}

/// The parts of the plan exist, and it takes a store away.
pub open spec fn plan_in(f: FuncView, p: Plan) -> bool {
    &&& loop_idiom::frame_in(f, p.frame)
    &&& p.frame.header != p.frame.body
    &&& f.has_inst(p.frame.body, p.store_index as int)
    &&& f.inst(p.frame.body, p.store_index as int).kind is Store
}

fn check_sizes(func: &Function, fr: Frame) -> (r: bool)
    requires
        func@.wf(),
        loop_idiom::frame_in(func@, fr),
    ensures
        r == sizes_fit(func@, fr),
{
    let phis = collect_phi_results(func, fr.header);
    match jump_target(func, fr.preheader) {
        Some(t) => if t != fr.header {
            return false;
        },
        None => return false,
    }
    phis.len() == 3 && active_insts(func, fr.header).len() == 4 && contains_value(
        &phis,
        fr.induction.phi,
    ) && defines_value(func, fr.header, fr.condition, What::Any) && active_insts(
        func,
        fr.body,
    ).len() == 5 && defines_value(func, fr.body, fr.induction.next, What::Any)
}

fn analyze_loop(func: &Function, l: &NaturalLoop) -> (r: Option<Plan>)
    requires
        func@.wf(),
        l@.within(func@.blocks.len()),
    ensures
        r == plan_at(func@, l@),
        r matches Some(p) ==> plan_in(func@, p),
{
    let frame = find_frame(func, l)?;
    if !check_sizes(func, frame) {
        return None;
    }
    let (loaded, src) = find_load(func, frame.body)?;
    let (store_index, dst) = find_store_of(func, frame.body, loaded)?;
    let phis = collect_phi_results(func, frame.header);
    if src == dst || !contains_value(&phis, src) || !contains_value(&phis, dst) || !check_types(
        func,
        src,
        dst,
        loaded,
    ) {
        return None;
    }
    let initial_src = find_walk(func, frame, src)?;
    let initial_dst = find_walk(func, frame, dst)?;
    if !proven_disjoint_objects(func, initial_src, initial_dst) || !check_closed(func, l, frame) {
        return None;
    }
    Some(Plan { frame, initial_dst, initial_src, store_index })
}

pub fn find_plan(func: &Function) -> (r: Option<Plan>)
    requires
        func@.wf(),
    ensures
        r == plan_of(func@),
        r matches Some(p) ==> plan_in(func@, p),
{
    let ghost f = func@;
    if !is_small_function(func) {
        return None;
    }
    let graph = ControlFlowGraph::new(func);
    let dom = Dominators::new(func, &graph);
    let info = LoopInfo::new(func, &graph, &dom);
    let list = info.loops();
    let ghost views = loops::loops_of(f);
    let n = list.len();
    assert(views.len() == n);
    for k in 0..n
        invariant
            func@ == f,
            f.wf(),
            loop_idiom::is_small(f),
            n == list.len(),
            views == loops::loops_of(f),
            views == loops::loops_view(list@),
            views.len() == n,
            plan_from(f, views, 0) == plan_from(f, views, k as int),
    {
        assert(views[k as int] == list@[k as int]@);
        proof {
            loops::lemma_listed_loop(f, k as int);
        }
        if let Some(p) = analyze_loop(func, &list[k]) {
            return Some(p);
        }
    }
    None
}

fn clear_header(func: &Function, p: Plan) -> (r: Vec<Inst>)
    requires
        func@.has_block(p.frame.header),
    ensures
        ir::insts_view(r@) == header_insts(func@, p),
{
    let ghost insts = func@.block(p.frame.header).insts;
    let mut list: Vec<Inst> = Vec::new();
    let n = func.blocks[p.frame.header.0].insts.len();
    for i in 0..n
        invariant
            func@.has_block(p.frame.header),
            insts == func@.block(p.frame.header).insts,
            n == insts.len(),
            list.len() == i,
            forall|j: int|
                0 <= j < i ==> (#[trigger] list@[j])@ == (if insts[j].kind is Phi {
                    edit::nop()
                } else {
                    insts[j]
                }),
    {
        let inst = &func.blocks[p.frame.header.0].insts[i];
        assert(inst@ == func@.inst(p.frame.header, i as int));
        if matches!(inst.kind, InstKind::Phi { .. }) {
            list.push(Inst { result: None, kind: InstKind::Nop });
        } else {
            list.push(inst.clone());
        }
    }
    assert(ir::insts_view(list@) =~= Seq::new(
        insts.len(),
        |i: int|
            if insts[i].kind is Phi {
                edit::nop()
            } else {
                insts[i]
            },
    ));
    set_condition(&mut list, p.frame.condition, p.frame.induction.initial);
    list
}

fn make_nops(n: usize) -> (r: Vec<Inst>)
    ensures
        ir::insts_view(r@) == nops(n as nat),
{
    let mut list: Vec<Inst> = Vec::new();
    for i in 0..n
        invariant
            list.len() == i,
            forall|j: int| 0 <= j < i ==> (#[trigger] list@[j])@ == edit::nop(),
    {
        list.push(Inst { result: None, kind: InstKind::Nop });
    }
    assert(ir::insts_view(list@) =~= nops(n as nat));
    list
}

fn apply_plan(func: &mut Function, p: Plan)
    requires
        plan_in(old(func)@, p),
    ensures
        final(func)@ == replaced(old(func)@, p),
{
    let header = clear_header(func, p);
    let body = p.frame.body.0;
    assert(func.blocks@[body as int]@ == func@.block(p.frame.body));
    let insts = make_nops(func.blocks[body].insts.len());
    refill(func, p.frame.header.0, header);
    refill(func, body, insts);
    emit_effect(
        func,
        body,
        InstKind::MemCopy {
            dst: p.initial_dst,
            src: p.initial_src,
            element_bytes: loop_idiom::ELEMENT_BYTES as i32,
            count: p.frame.bound,
        },
    );
    end_jump(func, body, p.frame.exit.0);
}

/// A replacement takes a store away.
proof fn lemma_replaced_fewer(f: FuncView, p: Plan)
    requires
        plan_in(f, p),
    ensures
        loop_idiom::stores_in(replaced(f, p)) < loop_idiom::stores_in(f),
{
    reveal(emit::refilled);
    reveal(emit::effected);
    reveal(emit::ended);
    let g = replaced(f, p);
    let (h, b) = (p.frame.header.0 as int, p.frame.body.0 as int);
    let old_header = f.blocks[h].insts;
    let kept = Seq::new(
        old_header.len(),
        |i: int|
            if old_header[i].kind is Phi {
                edit::nop()
            } else {
                old_header[i]
            },
    );
    let new_header = header_insts(f, p);
    loop_idiom::lemma_condition_set(kept, p.frame.condition, p.frame.induction.initial);
    assert(g.blocks[h].insts == new_header);
    assert forall|i: int| 0 <= i < old_header.len() && (
    #[trigger] new_header[i]).kind is Store implies old_header[i].kind is Store by {
        assert(kept[i].kind is Store);
    }
    loop_idiom::lemma_fewer_stores(old_header, new_header, old_header.len() as int, 0);
    let old_body = f.blocks[b].insts;
    let new_body = g.blocks[b].insts;
    let n = old_body.len() as int;
    assert(new_body =~= nops(n as nat).push(InstView { result: None, kind: copying(p) }));
    loop_idiom::lemma_fewer_stores(old_body, new_body, n, p.store_index as int);
    assert(loop_idiom::stores_below(new_body, n + 1) == loop_idiom::stores_below(new_body, n));
    loop_idiom::lemma_stores_changed(f, g, h, b, f.blocks.len() as int);
}

/// Replaces the loops of a function that copy arrays.
pub fn condense_function(func: &mut Function)
    requires
        old(func)@.wf(),
    ensures
        final(func)@ == condensed(old(func)@),
        final(func)@.wf(),
        plan_of(final(func)@) matches Some(p) ==> !verify::valid(replaced(final(func)@, p)),
{
    let ghost f = func@;
    let ghost mut left = loop_idiom::stores_in(f);
    let mut on = true;
    while on
        invariant
            func@.wf(),
            left >= loop_idiom::stores_in(func@),
            on ==> condensed(f) == rounds(func@, left),
            !on ==> condensed(f) == func@ && (plan_of(func@) matches Some(p) ==> !verify::valid(
                replaced(func@, p),
            )),
        decreases loop_idiom::stores_in(func@) + (if on {
                1int
            } else {
                0int
            }),
    {
        match find_plan(func) {
            Some(p) => {
                proof {
                    loop_idiom::lemma_has_store(func@, p.frame.body, p.store_index as int);
                    lemma_replaced_fewer(func@, p);
                }
                let before = func.clone();
                apply_plan(func, p);
                if func.verify().is_err() {
                    *func = before;
                    on = false;
                } else {
                    proof {
                        left = (left - 1) as nat;
                    }
                }
            },
            None => {
                on = false;
            },
        }
    }
}

/// The pass over all functions of a module.
pub struct LoopMemcpyPass;

impl LoopMemcpyPass {
    pub fn new() -> (r: Self) {
        LoopMemcpyPass
    }

    /// Replaces the loops of every function that copy arrays.
    pub fn run(&self, module: &mut Module)
        requires
            old(module)@.wf(),
        ensures
            final(module)@ == condensed_module(old(module)@),
            final(module)@.wf(),
    {
        let ghost m = module@;
        let ghost want = condensed_module(m);
        let n = module.funcs.len();
        for k in 0..n
            invariant
                n == module.funcs.len(),
                n == m.funcs.len(),
                m.wf(),
                module@ == (ModuleView { funcs: module@.funcs, ..m }),
                want == condensed_module(m),
                forall|j: int|
                    0 <= j < k ==> #[trigger] module@.funcs[j] == want.funcs[j]
                        && module@.funcs[j].wf(),
                forall|j: int| k <= j < n ==> #[trigger] module@.funcs[j] == m.funcs[j],
        {
            assert(module@.funcs[k as int] == m.funcs[k as int]);
            let ghost before = module@.funcs;
            condense_function(&mut module.funcs[k]);
            assert(module@.funcs =~= before.update(k as int, module.funcs@[k as int]@));
        }
        assert(module@.funcs =~= want.funcs);
    }
}

// ---------------------------------------------------------------------------
// Laws
// ---------------------------------------------------------------------------

/// The pass keeps functions valid.
pub proof fn condensing_keeps_validity(f: FuncView)
    requires
        verify::valid(f),
    ensures
        verify::valid(condensed(f)),
{
    lemma_rounds_valid(f, loop_idiom::stores_in(f));
}

proof fn lemma_rounds_valid(f: FuncView, fuel: nat)
    requires
        verify::valid(f),
    ensures
        verify::valid(rounds(f, fuel)),
    decreases fuel,
{
    if let Some(p) = plan_of(f) {
        if fuel > 0 && verify::valid(replaced(f, p)) {
            lemma_rounds_valid(replaced(f, p), (fuel - 1) as nat);
        }
    }
}

} // verus!
