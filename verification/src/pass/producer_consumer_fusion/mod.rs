//! Fusion of loops that fill arrays with calls that multiply them.
//!
//! A loop fills two local arrays that nothing else touches, and a call right
//! behind it computes their dot product. The sum is accumulated in the loop from
//! the values that it would store, and the stores and the call go.
pub mod consumer;
pub mod plan;

use vstd::prelude::*;

use crate::edit;
use crate::emit;
use crate::emit::{emit, insert, refill, set_phi};
use crate::ir;
use crate::ir::{
    BinaryOp, BlockId, FuncView, Function, Inst, InstKind, InstView, Module, ModuleView, Type,
};
use crate::pass::producer_consumer_fusion::consumer::analyze_dot_consumer;
use crate::pass::producer_consumer_fusion::plan::{find_fusion, Consumer, ConsumerView, Plan};
use crate::util;
use crate::util::{get_or_add_const, rewrite_function_uses, ValueMap};
use crate::verify;

verus! {

// ---------------------------------------------------------------------------
// Mathematical model
// ---------------------------------------------------------------------------

/// How many phis lead the block, from place `k` on.
pub open spec fn leading_phis(insts: Seq<InstView>, k: int) -> int
    decreases insts.len() - k,
{
    if k < 0 || k >= insts.len() || !(insts[k].kind is Phi) {
        k
    } else {
        leading_phis(insts, k + 1)
    }
}

/// The function without the instruction.
pub open spec fn inst_dropped(f: FuncView, b: BlockId, i: usize) -> FuncView {
    emit::refilled(f, b.0, f.block(b).insts.update(i as int, edit::nop()))
}

/// The function with the sum in the loop in place of the call.
pub open spec fn fused(f: FuncView, p: Plan) -> FuncView {
    let at = leading_phis(f.block(p.header).insts, 0);
    let g1 = inst_dropped(f, p.call_block, p.call_index);
    let g2 = inst_dropped(g1, p.lhs.block, p.lhs.index);
    let g3 = inst_dropped(g2, p.rhs.block, p.rhs.index);
    let initial = util::const_value(g3, p.initial);
    let g4 = util::with_const(g3, p.initial);
    let accumulator = g4.next_value();
    let g5 = emit::inserted(
        g4,
        p.header.0,
        at,
        emit::phi(seq![(p.preheader, initial)]),
        Type::F32,
    );
    let product = g5.next_value();
    let g6 = emit::emitted(
        g5,
        p.latch.0,
        emit::binary(BinaryOp::Fmul, p.lhs.value, p.rhs.value),
        Type::F32,
    );
    let next = g6.next_value();
    let g7 = emit::emitted(
        g6,
        p.latch.0,
        emit::binary(BinaryOp::Fadd, accumulator, product),
        Type::F32,
    );
    let g8 = emit::phi_set(g7, accumulator, seq![(p.preheader, initial), (p.latch, next)]);
    util::map_uses(
        g8,
        util::resolver(map![p.call_result => accumulator], g8.values.len()),
    )
}

/// The function after up to `fuel` fusions. A result that would not be valid is
/// discarded.
pub open spec fn fuse_rounds(f: FuncView, consumers: Seq<ConsumerView>, fuel: nat) -> FuncView
    decreases fuel,
{
    match plan::plan_of(f, consumers) {
        Some(p) => if fuel > 0 && verify::valid(fused(f, p)) {
            fuse_rounds(fused(f, p), consumers, (fuel - 1) as nat)
        } else {
            f
        },
        None => f,
    }
}

/// The effect on one function: as many fusions as there are to make.
pub open spec fn calls_fused(f: FuncView, consumers: Seq<ConsumerView>) -> FuncView {
    fuse_rounds(f, consumers, usize::MAX as nat)
}

/// The functions among the first `n` that compute dot products.
pub open spec fn consumers_below(funcs: Seq<FuncView>, n: int) -> Seq<ConsumerView>
    decreases n,
{
    if n <= 0 {
        Seq::empty()
    } else {
        let before = consumers_below(funcs, n - 1);
        match consumer::dot_of(funcs[n - 1]) {
            Some(initial) => before.push(ConsumerView { name: funcs[n - 1].name, initial }),
            None => before,
        }
    }
}

pub open spec fn consumers_of(m: ModuleView) -> Seq<ConsumerView> {
    consumers_below(m.funcs, m.funcs.len() as int)
}

pub open spec fn fused_module(m: ModuleView) -> ModuleView {
    ModuleView {
        funcs: m.funcs.map_values(|f: FuncView| calls_fused(f, consumers_of(m))),
        ..m
    }
}

// ---------------------------------------------------------------------------
// Executable functions
// ---------------------------------------------------------------------------

fn count_leading_phis(func: &Function, b: BlockId) -> (r: usize)
    requires
        func@.has_block(b),
    ensures
        r == leading_phis(func@.block(b).insts, 0),
        r <= func@.block(b).insts.len(),
{
    let ghost insts = func@.block(b).insts;
    let n = func.blocks[b.0].insts.len();
    let mut k: usize = 0;
    let mut on = true;
    while on && k < n
        invariant
            func@.has_block(b),
            insts == func@.block(b).insts,
            n == insts.len(),
            k <= n,
            on ==> leading_phis(insts, 0) == leading_phis(insts, k as int),
            !on ==> leading_phis(insts, 0) == k,
        decreases n - k, if on {
            1int
        } else {
            0int
        },
    {
        let inst = &func.blocks[b.0].insts[k];
        assert(inst@ == insts[k as int]);
        if matches!(inst.kind, InstKind::Phi { .. }) {
            k = k + 1;
        } else {
            on = false;
        }
    }
    k
}

fn drop_inst(func: &mut Function, b: BlockId, i: usize)
    requires
        old(func)@.has_inst(b, i as int),
    ensures
        final(func)@ == inst_dropped(old(func)@, b, i),
        final(func)@.blocks.len() == old(func)@.blocks.len(),
        final(func)@.values == old(func)@.values,
        forall|c: int|
            0 <= c < old(func)@.blocks.len() ==> (#[trigger] final(func)@.blocks[c]).insts.len()
                == old(func)@.blocks[c].insts.len(),
{
    let ghost f = func@;
    let ghost insts = f.block(b).insts;
    let mut list: Vec<Inst> = Vec::new();
    let n = func.blocks[b.0].insts.len();
    for k in 0..n
        invariant
            func@ == f,
            f.has_inst(b, i as int),
            insts == f.block(b).insts,
            n == insts.len(),
            list.len() == k,
            forall|j: int|
                0 <= j < k ==> (#[trigger] list@[j])@ == insts.update(i as int, edit::nop())[j],
    {
        if k == i {
            list.push(Inst { result: None, kind: InstKind::Nop });
        } else {
            let inst = &func.blocks[b.0].insts[k];
            assert(inst@ == insts[k as int]);
            list.push(inst.clone());
        }
    }
    assert(ir::insts_view(list@) =~= insts.update(i as int, edit::nop()));
    refill(func, b.0, list);
}

fn apply_fusion(func: &mut Function, p: &Plan)
    requires
        old(func)@.wf(),
        plan::plan_in(old(func)@, *p),
    ensures
        final(func)@ == fused(old(func)@, *p),
{
    let ghost f = func@;
    let at = count_leading_phis(func, p.header);
    drop_inst(func, p.call_block, p.call_index);
    assert(func@.blocks[p.lhs.block.0 as int].insts.len() == f.blocks[p.lhs.block.0 as int].insts.len());
    assert(func@.blocks[p.rhs.block.0 as int].insts.len() == f.blocks[p.rhs.block.0 as int].insts.len());
    assert(func@.blocks[p.header.0 as int].insts.len() == f.blocks[p.header.0 as int].insts.len());
    let ghost g1 = func@;
    drop_inst(func, p.lhs.block, p.lhs.index);
    assert(func@.blocks[p.rhs.block.0 as int].insts.len() == g1.blocks[p.rhs.block.0 as int].insts.len());
    assert(func@.blocks[p.header.0 as int].insts.len() == g1.blocks[p.header.0 as int].insts.len());
    let ghost g2 = func@;
    drop_inst(func, p.rhs.block, p.rhs.index);
    assert(func@.blocks[p.header.0 as int].insts.len() == g2.blocks[p.header.0 as int].insts.len());
    assert(func@.values.len() == f.values.len());
    let initial = get_or_add_const(func, &p.initial);
    let first = vec![(p.preheader, initial)];
    assert(first@ =~= seq![(p.preheader, initial)]);
    let accumulator = insert(func, p.header.0, at, InstKind::Phi { incomings: first }, Type::F32);
    let product = emit(
        func,
        p.latch.0,
        InstKind::Binary { op: BinaryOp::Fmul, lhs: p.lhs.value, rhs: p.rhs.value },
        Type::F32,
    );
    let next = emit(
        func,
        p.latch.0,
        InstKind::Binary { op: BinaryOp::Fadd, lhs: accumulator, rhs: product },
        Type::F32,
    );
    let both = vec![(p.preheader, initial), (p.latch, next)];
    assert(both@ =~= seq![(p.preheader, initial), (p.latch, next)]);
    set_phi(func, accumulator, both);
    let mut map = ValueMap::new();
    assert(func.values.len() == func@.values.len());
    map.insert(p.call_result, accumulator);
    assert(map@ =~= map![p.call_result => accumulator]);
    rewrite_function_uses(func, &map);
}

/// Fuses the calls of a function with the loops that fill their arrays.
pub fn fuse_calls(func: &mut Function, consumers: &Vec<Consumer>)
    requires
        old(func)@.wf(),
    ensures
        final(func)@ == calls_fused(old(func)@, plan::consumers_view(consumers@)),
        final(func)@.wf(),
{
    let ghost f = func@;
    let ghost known = plan::consumers_view(consumers@);
    let mut left: usize = usize::MAX;
    let mut on = true;
    while on && left > 0
        invariant
            func@.wf(),
            known == plan::consumers_view(consumers@),
            on ==> calls_fused(f, known) == fuse_rounds(func@, known, left as nat),
            !on ==> calls_fused(f, known) == func@,
        decreases left,
    {
        left = left - 1;
        match find_fusion(func, consumers) {
            Some(p) => {
                let before = func.clone();
                apply_fusion(func, &p);
                if func.verify().is_err() {
                    *func = before;
                    on = false;
                }
            },
            None => {
                on = false;
            },
        }
    }
}

fn collect_consumers(module: &Module) -> (r: Vec<Consumer>)
    requires
        module@.wf(),
    ensures
        plan::consumers_view(r@) == consumers_of(module@),
{
    let ghost m = module@;
    let mut list: Vec<Consumer> = Vec::new();
    let n = module.funcs.len();
    assert(n == m.funcs.len());
    assert(plan::consumers_view(list@) =~= Seq::empty());
    for k in 0..n
        invariant
            module@ == m,
            m.wf(),
            n == m.funcs.len(),
            plan::consumers_view(list@) == consumers_below(m.funcs, k as int),
    {
        let func = &module.funcs[k];
        assert(func@ == m.funcs[k as int]);
        if let Some(initial) = analyze_dot_consumer(func) {
            let ghost before = list@;
            list.push(Consumer { name: func.name.clone(), initial });
            assert(plan::consumers_view(list@) =~= plan::consumers_view(before).push(
                list@.last()@,
            ));
        }
    }
    list
}

/// The pass over all functions of a module.
pub struct ProducerConsumerFusionPass;

impl ProducerConsumerFusionPass {
    pub fn new() -> (r: Self) {
        ProducerConsumerFusionPass
    }

    /// Fuses the calls of every function with the loops that fill their arrays.
    pub fn run(&self, module: &mut Module)
        requires
            old(module)@.wf(),
        ensures
            final(module)@ == fused_module(old(module)@),
            final(module)@.wf(),
    {
        let ghost m = module@;
        let ghost want = fused_module(m);
        let consumers = collect_consumers(module);
        let n = module.funcs.len();
        for k in 0..n
            invariant
                n == module.funcs.len(),
                n == m.funcs.len(),
                m.wf(),
                module@ == (ModuleView { funcs: module@.funcs, ..m }),
                want == fused_module(m),
                plan::consumers_view(consumers@) == consumers_of(m),
                forall|j: int|
                    0 <= j < k ==> #[trigger] module@.funcs[j] == want.funcs[j]
                        && module@.funcs[j].wf(),
                forall|j: int| k <= j < n ==> #[trigger] module@.funcs[j] == m.funcs[j],
        {
            assert(module@.funcs[k as int] == m.funcs[k as int]);
            let ghost before = module@.funcs;
            fuse_calls(&mut module.funcs[k], &consumers);
            assert(module@.funcs =~= before.update(k as int, module.funcs@[k as int]@));
        }
        assert(module@.funcs =~= want.funcs);
    }
}

// ---------------------------------------------------------------------------
// Laws
// ---------------------------------------------------------------------------

proof fn lemma_rounds_valid(f: FuncView, consumers: Seq<ConsumerView>, fuel: nat)
    requires
        verify::valid(f),
    ensures
        verify::valid(fuse_rounds(f, consumers, fuel)),
    decreases fuel,
{
    if let Some(p) = plan::plan_of(f, consumers) {
        if fuel > 0 && verify::valid(fused(f, p)) {
            lemma_rounds_valid(fused(f, p), consumers, (fuel - 1) as nat);
        }
    }
}

/// The pass keeps functions valid.
pub proof fn fusing_keeps_validity(f: FuncView, consumers: Seq<ConsumerView>)
    requires
        verify::valid(f),
    ensures
        verify::valid(calls_fused(f, consumers)),
{
    lemma_rounds_valid(f, consumers, usize::MAX as nat);
}

/// A module without dot products stays as it is.
pub proof fn nothing_is_fused_without_consumers(m: ModuleView)
    requires
        consumers_of(m).len() == 0,
    ensures
        fused_module(m) == m,
{
    assert forall|i: int| 0 <= i < m.funcs.len() implies calls_fused(m.funcs[i], consumers_of(m))
        == m.funcs[i] by {
        lemma_no_plan_without_consumers(m.funcs[i], consumers_of(m));
    }
    assert(fused_module(m).funcs =~= m.funcs);
}

proof fn lemma_no_outcome(
    f: FuncView,
    consumers: Seq<ConsumerView>,
    b: BlockId,
    i: int,
)
    requires
        consumers.len() == 0,
        0 <= i,
    ensures
        plan::outcome_in_block(f, crate::loops::loops_of(f), consumers, b, i) is Skip,
    decreases f.block(b).insts.len() - i,
{
    if i < f.block(b).insts.len() {
        lemma_no_outcome(f, consumers, b, i + 1);
    }
}

proof fn lemma_no_plan_from(f: FuncView, consumers: Seq<ConsumerView>, b: int)
    requires
        consumers.len() == 0,
        0 <= b,
    ensures
        plan::plan_from(f, crate::loops::loops_of(f), consumers, b) is None,
    decreases f.blocks.len() - b,
{
    if b < f.blocks.len() {
        lemma_no_outcome(f, consumers, BlockId(b as usize), 0);
        lemma_no_plan_from(f, consumers, b + 1);
    }
}

proof fn lemma_no_plan_without_consumers(f: FuncView, consumers: Seq<ConsumerView>)
    requires
        consumers.len() == 0,
    ensures
        calls_fused(f, consumers) == f,
{
    lemma_no_plan_from(f, consumers, 0);
}

/// The array with the first `n` elements filled.
pub open spec fn filled(array: Map<int, int>, value: spec_fn(int) -> int, n: int) -> Map<int, int>
    decreases n,
{
    if n <= 0 {
        array
    } else {
        filled(array, value, n - 1).insert(n - 1, value(n - 1))
    }
}

/// The dot product of the first `n` elements of two arrays, in the given
/// arithmetic.
pub open spec fn dot(
    plus: spec_fn(int, int) -> int,
    times: spec_fn(int, int) -> int,
    initial: int,
    a: Map<int, int>,
    b: Map<int, int>,
    n: int,
) -> int
    decreases n,
{
    if n <= 0 {
        initial
    } else {
        plus(dot(plus, times, initial, a, b, n - 1), times(a[n - 1], b[n - 1]))
    }
}

/// The sum that the loop accumulates in its first `n` rounds, from what it would
/// store.
pub open spec fn accumulated(
    plus: spec_fn(int, int) -> int,
    times: spec_fn(int, int) -> int,
    initial: int,
    x: spec_fn(int) -> int,
    y: spec_fn(int) -> int,
    n: int,
) -> int
    decreases n,
{
    if n <= 0 {
        initial
    } else {
        plus(accumulated(plus, times, initial, x, y, n - 1), times(x(n - 1), y(n - 1)))
    }
}

proof fn lemma_filled(array: Map<int, int>, value: spec_fn(int) -> int, n: int, i: int)
    requires
        0 <= i < n,
    ensures
        filled(array, value, n)[i] == value(i),
    decreases n,
{
    if i < n - 1 {
        lemma_filled(array, value, n - 1, i);
    }
}

/// The loop accumulates the dot product of the arrays that it would fill. It adds
/// and multiplies the same numbers in the same order, so this holds in any
/// arithmetic, even one that rounds.
pub proof fn the_loop_accumulates_the_dot_product(
    plus: spec_fn(int, int) -> int,
    times: spec_fn(int, int) -> int,
    initial: int,
    a: Map<int, int>,
    b: Map<int, int>,
    x: spec_fn(int) -> int,
    y: spec_fn(int) -> int,
    length: int,
    n: int,
)
    requires
        n <= length,
    ensures
        accumulated(plus, times, initial, x, y, n) == dot(
            plus,
            times,
            initial,
            filled(a, x, length),
            filled(b, y, length),
            n,
        ),
    decreases n,
{
    if n > 0 {
        the_loop_accumulates_the_dot_product(plus, times, initial, a, b, x, y, length, n - 1);
        lemma_filled(a, x, length, n - 1);
        lemma_filled(b, y, length, n - 1);
    }
}

} // verus!
