//! Loops that store zero to the elements of an array, one by one, become a
//! single zeroing.
use vstd::prelude::*;

use crate::cfg::{ControlFlowGraph, Dominators};
use crate::edit;
use crate::emit;
use crate::emit::{emit, emit_effect, end_jump, refill};
use crate::ir;
use crate::ir::{
    Const, FuncView, Function, Inst, InstKind, InstView, KindView, Module, ModuleView, Terminator,
    Type, ValueId, ValueKind, ValueKindView,
};
use crate::loops;
use crate::loops::{LoopInfo, LoopView, NaturalLoop};
use crate::pass::loop_idiom;
use crate::pass::loop_idiom::{
    defines_value, find_frame, first_store, is_loop_invariant, is_small_function, scalar,
    set_condition, used_outside_loop, Frame, What,
};
use crate::query;
use crate::query::{active_insts, defining_inst_kind};
use crate::verify;

verus! {

/// A loop that zeroes an array.
#[derive(Clone, Copy, PartialEq, Eq, Structural)]
pub struct Plan {
    pub frame: Frame,
    pub address: ValueId,
    pub base: ValueId,
    pub store_index: usize,
}

// ---------------------------------------------------------------------------
// Mathematical model
// ---------------------------------------------------------------------------

/// The value is the constant zero.
pub open spec fn is_zero(f: FuncView, v: ValueId) -> bool {
    match f.value(v).kind {
        ValueKindView::Const(Const::Int(i)) => i == 0,
        ValueKindView::Const(Const::Bool(b)) => !b,
        ValueKindView::Const(Const::Float(bits)) => bits == 0,
        ValueKindView::Const(Const::Zero(_)) => true,
        _ => false,
    }
}

/// The base of an address that has one index, the given one.
pub open spec fn element_base(f: FuncView, address: ValueId, index: ValueId) -> Option<ValueId> {
    match query::definition(f, address) {
        Some(KindView::Gep { base, indices }) => if indices == seq![index] {
            Some(base)
        } else {
            None
        },
        _ => None,
    }
}

/// The value points to a scalar.
pub open spec fn points_to_scalar(f: FuncView, v: ValueId) -> bool {
    match f.value(v).ty {
        Type::Ptr(pointee) => loop_idiom::is_scalar(*pointee),
        _ => false,
    }
}

/// The header holds the counter and the condition, the body three instructions.
pub open spec fn sizes_fit(f: FuncView, fr: Frame) -> bool {
    &&& query::active(f, fr.header).len() == 2
    &&& loop_idiom::defines(f, fr.header, fr.induction.phi, What::Phi)
    &&& loop_idiom::defines(f, fr.header, fr.condition, What::Comparison)
    &&& query::active(f, fr.body).len() == 3
}

/// The body computes the address and the next counter, and nothing of the loop
/// is read outside of it.
pub open spec fn body_fits(f: FuncView, l: LoopView, fr: Frame, address: ValueId) -> bool {
    &&& loop_idiom::defines(f, fr.body, address, What::Element)
    &&& loop_idiom::defines(f, fr.body, fr.induction.next, What::Binary)
    &&& !loop_idiom::is_read_outside(f, l, fr.induction.phi)
    &&& !loop_idiom::is_read_outside(f, l, fr.induction.next)
    &&& !loop_idiom::is_read_outside(f, l, address)
}

/// The loop as one that zeroes an array.
pub open spec fn plan_at(f: FuncView, l: LoopView) -> Option<Plan> {
    match loop_idiom::frame_of(f, l) {
        Some(frame) => if sizes_fit(f, frame) {
            match loop_idiom::store_from(f.block(frame.body).insts, 0) {
                Some((store_index, address, stored)) => match element_base(
                    f,
                    address,
                    frame.induction.phi,
                ) {
                    Some(base) => if is_zero(f, stored) && loop_idiom::is_invariant(f, l, base)
                        && points_to_scalar(f, address) && body_fits(f, l, frame, address) {
                        Some(Plan { frame, address, base, store_index })
                    } else {
                        None
                    },
                    None => None,
                },
                None => None,
            }
        } else {
            None
        },
        None => None,
    }
}

pub open spec fn plan_from(f: FuncView, list: Seq<LoopView>, k: int) -> Option<Plan>
    decreases list.len() - k,
{
    if k < 0 || k >= list.len() {
        None
    } else {
        match plan_at(f, list[k]) {
            Some(p) => Some(p),
            None => plan_from(f, list, k + 1),
        }
    }
}

/// The first loop that zeroes an array.
pub open spec fn plan_of(f: FuncView) -> Option<Plan> {
    if loop_idiom::is_small(f) {
        plan_from(f, loops::loops_of(f), 0)
    } else {
        None
    }
}

/// The header without the counter.
pub open spec fn header_insts(f: FuncView, p: Plan) -> Seq<InstView> {
    let insts = f.block(p.frame.header).insts;
    let kept = Seq::new(
        insts.len(),
        |i: int|
            if insts[i].result == Some(p.frame.induction.phi) {
                edit::nop()
            } else {
                insts[i]
            },
    );
    loop_idiom::condition_set(kept, p.frame.condition, p.frame.induction.initial)
}

/// The instruction of the body goes.
pub open spec fn is_dropped(inst: InstView, p: Plan, i: int) -> bool {
    ||| i <= p.store_index && (inst.result == Some(p.address) || inst.kind is Store)
    ||| inst.result == Some(p.frame.induction.next)
}

/// The body without the store and what it was computed from.
pub open spec fn body_insts(f: FuncView, p: Plan) -> Seq<InstView> {
    let insts = f.block(p.frame.body).insts;
    Seq::new(
        insts.len(),
        |i: int|
            if is_dropped(insts[i], p, i) {
                edit::nop()
            } else {
                insts[i]
            },
    )
}

/// The address of the first element.
pub open spec fn first_element(p: Plan) -> KindView {
    KindView::Gep { base: p.base, indices: seq![p.frame.induction.initial] }
}

/// The zeroing of as many elements as the loop has rounds.
pub open spec fn zeroing(p: Plan, ptr: ValueId) -> KindView {
    KindView::MemZero { ptr, bytes: loop_idiom::ELEMENT_BYTES, count: Some(p.frame.bound) }
}

/// The function with the loop replaced: its body runs once, if at all.
pub open spec fn replaced(f: FuncView, p: Plan) -> FuncView {
    let body = p.frame.body.0;
    let f1 = emit::refilled(f, p.frame.header.0, header_insts(f, p));
    let f2 = emit::refilled(f1, body, body_insts(f, p));
    let start = f2.next_value();
    let f3 = emit::emitted(f2, body, first_element(p), f.value(p.address).ty);
    let f4 = emit::effected(f3, body, zeroing(p, start));
    emit::ended(f4, body, Terminator::Jump(p.frame.exit))
}

/// The function after up to `fuel` replacements. A result that would not be
/// valid is discarded.
pub open spec fn rounds(f: FuncView, fuel: nat) -> FuncView
    decreases fuel,
{
    match plan_of(f) {
        Some(p) => if fuel > 0 && verify::valid(replaced(f, p)) {
            rounds(replaced(f, p), (fuel - 1) as nat)
        } else {
            f
        },
        None => f,
    }
}

/// The effect on one function: each replacement takes a store away, so there are
/// no more of them than stores.
pub open spec fn cleared(f: FuncView) -> FuncView {
    rounds(f, loop_idiom::stores_in(f))
}

pub open spec fn cleared_module(m: ModuleView) -> ModuleView {
    ModuleView { funcs: m.funcs.map_values(|f: FuncView| cleared(f)), ..m }
}

// ---------------------------------------------------------------------------
// Executable functions
// ---------------------------------------------------------------------------

fn zero_value(func: &Function, v: ValueId) -> (r: bool)
    requires
        func@.has_value(v),
    ensures
        r == is_zero(func@, v),
{
    assert(func.values@[v.0 as int]@ == func@.value(v));
    match &func.values[v.0].kind {
        ValueKind::Const(Const::Int(i)) => *i == 0,
        ValueKind::Const(Const::Bool(b)) => !*b,
        ValueKind::Const(Const::Float(bits)) => *bits == 0,
        ValueKind::Const(Const::Zero(_)) => true,
        _ => false,
    }
}

fn find_base(func: &Function, address: ValueId, index: ValueId) -> (r: Option<ValueId>)
    requires
        func@.wf(),
    ensures
        r == element_base(func@, address, index),
        r matches Some(b) ==> func@.has_value(b),
{
    proof {
        query::lemma_definition_wf(func@, address);
    }
    match defining_inst_kind(func, address) {
        Some(InstKind::Gep { base, indices }) => {
            if indices.len() == 1 && indices[0] == index {
                assert(indices@ =~= seq![index]);
                Some(*base)
            } else {
                assert(seq![index].len() == 1 && seq![index][0] == index);
                None
            }
        },
        _ => None,
    }
}

fn scalar_pointer(func: &Function, v: ValueId) -> (r: bool)
    requires
        func@.has_value(v),
    ensures
        r == points_to_scalar(func@, v),
{
    assert(func.values@[v.0 as int]@ == func@.value(v));
    match &func.values[v.0].ty {
        Type::Ptr(pointee) => scalar(&**pointee),
        _ => false,
    }
}

/// The parts of the plan exist, and it takes a store away.
pub open spec fn plan_in(f: FuncView, p: Plan) -> bool {
    &&& loop_idiom::frame_in(f, p.frame)
    &&& f.has_value(p.address)
    &&& p.frame.header != p.frame.body
    &&& f.has_inst(p.frame.body, p.store_index as int)
    &&& f.inst(p.frame.body, p.store_index as int).kind is Store
}

fn analyze_loop(func: &Function, l: &NaturalLoop) -> (r: Option<Plan>)
    requires
        func@.wf(),
        l@.within(func@.blocks.len()),
    ensures
        r == plan_at(func@, l@),
        r matches Some(p) ==> plan_in(func@, p),
{
    let frame = find_frame(func, l)?;
    let iv = frame.induction;
    if active_insts(func, frame.header).len() != 2 || !defines_value(
        func,
        frame.header,
        iv.phi,
        What::Phi,
    ) || !defines_value(func, frame.header, frame.condition, What::Comparison) || active_insts(
        func,
        frame.body,
    ).len() != 3 {
        return None;
    }
    let (store_index, address, stored) = first_store(func, frame.body)?;
    let base = find_base(func, address, iv.phi)?;
    if !zero_value(func, stored) || !is_loop_invariant(func, l, base) || !scalar_pointer(
        func,
        address,
    ) || !defines_value(func, frame.body, address, What::Element) || !defines_value(
        func,
        frame.body,
        iv.next,
        What::Binary,
    ) || used_outside_loop(func, l, iv.phi) || used_outside_loop(func, l, iv.next)
        || used_outside_loop(func, l, address) {
        return None;
    }
    Some(Plan { frame, address, base, store_index })
}

pub fn find_plan(func: &Function) -> (r: Option<Plan>)
    requires
        func@.wf(),
    ensures
        r == plan_of(func@),
        r matches Some(p) ==> plan_in(func@, p),
{
    let ghost f = func@;
    if !is_small_function(func) {
        return None;
    }
    let graph = ControlFlowGraph::new(func);
    let dom = Dominators::new(func, &graph);
    let info = LoopInfo::new(func, &graph, &dom);
    let list = info.loops();
    let ghost views = loops::loops_of(f);
    let n = list.len();
    assert(views.len() == n);
    for k in 0..n
        invariant
            func@ == f,
            f.wf(),
            loop_idiom::is_small(f),
            n == list.len(),
            views == loops::loops_of(f),
            views == loops::loops_view(list@),
            views.len() == n,
            plan_from(f, views, 0) == plan_from(f, views, k as int),
    {
        assert(views[k as int] == list@[k as int]@);
        proof {
            loops::lemma_listed_loop(f, k as int);
        }
        if let Some(p) = analyze_loop(func, &list[k]) {
            return Some(p);
        }
    }
    None
}

fn clear_header(func: &Function, p: Plan) -> (r: Vec<Inst>)
    requires
        func@.has_block(p.frame.header),
    ensures
        ir::insts_view(r@) == header_insts(func@, p),
{
    let ghost insts = func@.block(p.frame.header).insts;
    let mut list: Vec<Inst> = Vec::new();
    let n = func.blocks[p.frame.header.0].insts.len();
    for i in 0..n
        invariant
            func@.has_block(p.frame.header),
            insts == func@.block(p.frame.header).insts,
            n == insts.len(),
            list.len() == i,
            forall|j: int|
                0 <= j < i ==> (#[trigger] list@[j])@ == (if insts[j].result == Some(
                    p.frame.induction.phi,
                ) {
                    edit::nop()
                } else {
                    insts[j]
                }),
    {
        let inst = &func.blocks[p.frame.header.0].insts[i];
        assert(inst@ == func@.inst(p.frame.header, i as int));
        let counter = match inst.result {
            Some(r) => r == p.frame.induction.phi,
            None => false,
        };
        if counter {
            list.push(Inst { result: None, kind: InstKind::Nop });
        } else {
            list.push(inst.clone());
        }
    }
    assert(ir::insts_view(list@) =~= Seq::new(
        insts.len(),
        |i: int|
            if insts[i].result == Some(p.frame.induction.phi) {
                edit::nop()
            } else {
                insts[i]
            },
    ));
    set_condition(&mut list, p.frame.condition, p.frame.induction.initial);
    list
}

fn drops(inst: &Inst, p: Plan, i: usize) -> (r: bool)
    ensures
        r == is_dropped(inst@, p, i as int),
{
    let store = matches!(inst.kind, InstKind::Store { .. });
    match inst.result {
        Some(v) => (i <= p.store_index && (v == p.address || store)) || v
            == p.frame.induction.next,
        None => i <= p.store_index && store,
    }
}

fn clear_body(func: &Function, p: Plan) -> (r: Vec<Inst>)
    requires
        func@.has_block(p.frame.body),
    ensures
        ir::insts_view(r@) == body_insts(func@, p),
{
    let ghost insts = func@.block(p.frame.body).insts;
    let mut list: Vec<Inst> = Vec::new();
    let n = func.blocks[p.frame.body.0].insts.len();
    for i in 0..n
        invariant
            func@.has_block(p.frame.body),
            insts == func@.block(p.frame.body).insts,
            n == insts.len(),
            list.len() == i,
            forall|j: int|
                0 <= j < i ==> (#[trigger] list@[j])@ == (if is_dropped(insts[j], p, j) {
                    edit::nop()
                } else {
                    insts[j]
                }),
    {
        let inst = &func.blocks[p.frame.body.0].insts[i];
        assert(inst@ == func@.inst(p.frame.body, i as int));
        if drops(inst, p, i) {
            list.push(Inst { result: None, kind: InstKind::Nop });
        } else {
            list.push(inst.clone());
        }
    }
    assert(ir::insts_view(list@) =~= body_insts(func@, p));
    list
}

fn apply_plan(func: &mut Function, p: Plan)
    requires
        plan_in(old(func)@, p),
    ensures
        final(func)@ == replaced(old(func)@, p),
{
    let header = clear_header(func, p);
    let insts = clear_body(func, p);
    assert(func.values@[p.address.0 as int]@ == func@.value(p.address));
    let ty = func.values[p.address.0].ty.clone();
    let body = p.frame.body.0;
    refill(func, p.frame.header.0, header);
    refill(func, body, insts);
    let indices = vec![p.frame.induction.initial];
    assert(indices@ =~= seq![p.frame.induction.initial]);
    let start = emit(func, body, InstKind::Gep { base: p.base, indices }, ty);
    let count = Some(p.frame.bound);
    emit_effect(
        func,
        body,
        InstKind::MemZero { ptr: start, bytes: loop_idiom::ELEMENT_BYTES, count },
    );
    end_jump(func, body, p.frame.exit.0);
}

/// A replacement takes a store away.
proof fn lemma_replaced_fewer(f: FuncView, p: Plan)
    requires
        plan_in(f, p),
    ensures
        loop_idiom::stores_in(replaced(f, p)) < loop_idiom::stores_in(f),
{
    reveal(emit::refilled);
    reveal(emit::emitted);
    reveal(emit::effected);
    reveal(emit::ended);
    let g = replaced(f, p);
    let (h, b) = (p.frame.header.0 as int, p.frame.body.0 as int);
    let old_header = f.blocks[h].insts;
    let kept = Seq::new(
        old_header.len(),
        |i: int|
            if old_header[i].result == Some(p.frame.induction.phi) {
                edit::nop()
            } else {
                old_header[i]
            },
    );
    let new_header = header_insts(f, p);
    loop_idiom::lemma_condition_set(kept, p.frame.condition, p.frame.induction.initial);
    assert(g.blocks[h].insts == new_header);
    assert forall|i: int| 0 <= i < old_header.len() && (
    #[trigger] new_header[i]).kind is Store implies old_header[i].kind is Store by {
        assert(kept[i].kind is Store);
    }
    loop_idiom::lemma_fewer_stores(old_header, new_header, old_header.len() as int, 0);
    let old_body = f.blocks[b].insts;
    let cleared = body_insts(f, p);
    let new_body = g.blocks[b].insts;
    assert(new_body.len() == old_body.len() + 2);
    assert(new_body.take(old_body.len() as int) =~= cleared);
    assert forall|i: int| 0 <= i < old_body.len() implies new_body[i] == cleared[i] by {
        assert(new_body.take(old_body.len() as int)[i] == new_body[i]);
    }
    assert(is_dropped(old_body[p.store_index as int], p, p.store_index as int));
    loop_idiom::lemma_fewer_stores(
        old_body,
        new_body,
        old_body.len() as int,
        p.store_index as int,
    );
    let n = old_body.len() as int;
    assert(!(new_body[n].kind is Store));
    assert(!(new_body[n + 1].kind is Store));
    assert(loop_idiom::stores_below(new_body, n + 1) == loop_idiom::stores_below(new_body, n));
    assert(loop_idiom::stores_below(new_body, n + 2) == loop_idiom::stores_below(
        new_body,
        n + 1,
    ));
    loop_idiom::lemma_stores_changed(f, g, h, b, f.blocks.len() as int);
}

/// Replaces the loops of a function that zero arrays.
pub fn clear_function(func: &mut Function)
    requires
        old(func)@.wf(),
    ensures
        final(func)@ == cleared(old(func)@),
        final(func)@.wf(),
        plan_of(final(func)@) matches Some(p) ==> !verify::valid(replaced(final(func)@, p)),
{
    let ghost f = func@;
    let ghost mut left = loop_idiom::stores_in(f);
    let mut on = true;
    while on
        invariant
            func@.wf(),
            left >= loop_idiom::stores_in(func@),
            on ==> cleared(f) == rounds(func@, left),
            !on ==> cleared(f) == func@ && (plan_of(func@) matches Some(p) ==> !verify::valid(
                replaced(func@, p),
            )),
        decreases loop_idiom::stores_in(func@) + (if on {
                1int
            } else {
                0int
            }),
    {
        match find_plan(func) {
            Some(p) => {
                proof {
                    loop_idiom::lemma_has_store(func@, p.frame.body, p.store_index as int);
                    lemma_replaced_fewer(func@, p);
                }
                let before = func.clone();
                apply_plan(func, p);
                if func.verify().is_err() {
                    *func = before;
                    on = false;
                } else {
                    proof {
                        left = (left - 1) as nat;
                    }
                }
            },
            None => {
                on = false;
            },
        }
    }
}

/// The pass over all functions of a module.
pub struct LoopMemsetPass;

impl LoopMemsetPass {
    pub fn new() -> (r: Self) {
        LoopMemsetPass
    }

    /// Replaces the loops of every function that zero arrays.
    pub fn run(&self, module: &mut Module)
        requires
            old(module)@.wf(),
        ensures
            final(module)@ == cleared_module(old(module)@),
            final(module)@.wf(),
    {
        let ghost m = module@;
        let ghost want = cleared_module(m);
        let n = module.funcs.len();
        for k in 0..n
            invariant
                n == module.funcs.len(),
                n == m.funcs.len(),
                m.wf(),
                module@ == (ModuleView { funcs: module@.funcs, ..m }),
                want == cleared_module(m),
                forall|j: int|
                    0 <= j < k ==> #[trigger] module@.funcs[j] == want.funcs[j]
                        && module@.funcs[j].wf(),
                forall|j: int| k <= j < n ==> #[trigger] module@.funcs[j] == m.funcs[j],
        {
            assert(module@.funcs[k as int] == m.funcs[k as int]);
            let ghost before = module@.funcs;
            clear_function(&mut module.funcs[k]);
            assert(module@.funcs =~= before.update(k as int, module.funcs@[k as int]@));
        }
        assert(module@.funcs =~= want.funcs);
    }
}

// ---------------------------------------------------------------------------
// Laws
// ---------------------------------------------------------------------------

/// The pass keeps functions valid.
pub proof fn clearing_keeps_validity(f: FuncView)
    requires
        verify::valid(f),
    ensures
        verify::valid(cleared(f)),
{
    lemma_rounds_valid(f, loop_idiom::stores_in(f));
}

proof fn lemma_rounds_valid(f: FuncView, fuel: nat)
    requires
        verify::valid(f),
    ensures
        verify::valid(rounds(f, fuel)),
    decreases fuel,
{
    if let Some(p) = plan_of(f) {
        if fuel > 0 && verify::valid(replaced(f, p)) {
            lemma_rounds_valid(replaced(f, p), (fuel - 1) as nat);
        }
    }
}

} // verus!
