//! Collapsing of modular recurrences.
//!
//! A loop that repeats `state = (state + delta) % modulus` with positive
//! constants gets a closed form beside it. The closed form is taken only when
//! the initial state lies in the range of the modulus and the sum cannot
//! overflow; otherwise the loop runs.
use vstd::prelude::*;

use crate::cfg::{ControlFlowGraph, Dominators};
use crate::ir::{
    BinaryOp, BlockId, CompareOp, Const, FuncView, Function, InstKind, InstView, KindView, Module,
    ModuleView, Terminator, Type, ValueId,
};
use crate::loops;
use crate::loops::{analyze_i32_induction, InductionVariable, LoopInfo, LoopView, NaturalLoop};
use crate::patterns;
use crate::patterns::{
    append_binary, append_boolean, append_comparison, as_binary, as_branch, as_compare,
    collect_phi_results, is_defined_in, replace_uses_from,
};
use crate::query;
use crate::query::block_has_phi;
use crate::util;
use crate::util::{const_i32, is_const_i32, phi_incoming, ValueMap};
use crate::verify;

verus! {

pub const MAX_BLOCKS: usize = 64;

pub const MAX_VALUES: usize = 512;

pub const MAX_LOOP_BLOCKS: usize = 4;

/// A loop that is a modular recurrence.
#[derive(Clone, Copy, PartialEq, Eq, Structural)]
pub struct Plan {
    pub header: BlockId,
    pub preheader: BlockId,
    pub exit: BlockId,
    pub state: ValueId,
    pub initial_state: ValueId,
    pub bound: ValueId,
    pub delta: i32,
    pub modulus: i32,
    pub safe_bound: i32,
}

/// The parts of the recurrence that only the loop itself needs.
#[derive(Clone, Copy, PartialEq, Eq, Structural)]
pub struct Recurrence {
    pub latch: BlockId,
    pub counter: ValueId,
    pub counter_next: ValueId,
    pub cond: ValueId,
    pub added: ValueId,
    pub next_state: ValueId,
}

// ---------------------------------------------------------------------------
// Mathematical model
// ---------------------------------------------------------------------------

/// The counter and the other phi of a loop whose header has two phis.
pub open spec fn counter_and_state(f: FuncView, l: LoopView) -> Option<
    (InductionVariable, ValueId),
> {
    let phis = patterns::phi_results(f, l.header);
    if phis.len() != 2 {
        None
    } else {
        match (loops::induction_of(f, l, phis[0]), loops::induction_of(f, l, phis[1])) {
            (Some(iv), _) => Some((iv, phis[1])),
            (None, Some(iv)) => Some((iv, phis[0])),
            _ => None,
        }
    }
}

/// How often the step can be added to a state below the modulus without
/// overflow.
pub open spec fn safe_count(delta: int, modulus: int) -> int {
    (i32::MAX - (modulus - 1)) / delta
}

/// The constant that is added to the state.
pub open spec fn delta_of(f: FuncView, added: ValueId, state: ValueId) -> Option<i32> {
    match patterns::binary_of(f, added) {
        Some((BinaryOp::Iadd, a, b)) => if a == state {
            util::const_i32_of(f, b)
        } else if b == state {
            util::const_i32_of(f, a)
        } else {
            None
        },
        _ => None,
    }
}

/// The instruction belongs to the recurrence.
pub open spec fn belongs(inst: InstView, r: Recurrence, state: ValueId) -> bool {
    inst.kind is Nop || match inst.result {
        Some(v) => v == r.counter || v == state || v == r.cond || v == r.added || v == r.next_state
            || v == r.counter_next,
        None => false,
    }
}

/// The loop holds nothing else.
pub open spec fn is_exact(f: FuncView, l: LoopView, r: Recurrence, state: ValueId) -> bool {
    forall|b: BlockId, i: int|
        l.blocks.contains(b) && f.has_inst(b, i) ==> belongs(#[trigger] f.inst(b, i), r, state)
}

/// Loop `l` is the recurrence that the plan describes.
pub open spec fn recurrence_matches(f: FuncView, l: LoopView, p: Plan, r: Recurrence) -> bool {
    &&& l.header == p.header
    &&& l.dedicated_preheader == Some(p.preheader)
    &&& l.unique_latch() == Some(r.latch)
    &&& l.unique_exit() == Some(p.exit)
    &&& l.blocks.len() <= MAX_LOOP_BLOCKS
    &&& !query::has_phi(f.block(p.exit).insts)
    &&& counter_and_state(f, l) matches Some((iv, state))
    &&& iv.phi == r.counter && iv.next == r.counter_next && state == p.state
    &&& iv.step == 1 && util::const_i32_of(f, iv.initial) == Some(0i32)
    &&& patterns::branch_of(f, p.header) matches Some((cond, t, e))
    &&& cond == r.cond && l.has(t) && !l.has(e)
    &&& patterns::compare_of(f, cond) == Some((CompareOp::Lt, r.counter, p.bound))
    &&& !patterns::defined_in(f, p.bound, l.blocks)
    &&& util::phi_incoming_of(f, p.state, p.preheader) == Some(p.initial_state)
    &&& util::phi_incoming_of(f, p.state, r.latch) == Some(r.next_state)
    &&& patterns::binary_of(f, r.next_state) matches Some((op, added, modulus))
    &&& op == BinaryOp::Imod && added == r.added
    &&& util::const_i32_of(f, modulus) == Some(p.modulus) && p.modulus > 1
    &&& delta_of(f, r.added, p.state) == Some(p.delta) && p.delta > 0
    &&& p.safe_bound == safe_count(p.delta as int, p.modulus as int) && p.safe_bound >= 1
    &&& is_exact(f, l, r, p.state)
}

/// The only loop of the function is the recurrence that the plan describes.
pub open spec fn plan_matches(f: FuncView, p: Plan) -> bool {
    &&& f.blocks.len() <= MAX_BLOCKS
    &&& f.values.len() <= MAX_VALUES
    &&& loops::loops_of(f).len() == 1
    &&& exists|r: Recurrence| #[trigger] recurrence_matches(f, loops::loops_of(f)[0], p, r)
}

pub open spec fn plan_of(f: FuncView) -> Option<Plan> {
    if exists|p: Plan| plan_matches(f, p) {
        Some(choose|p: Plan| plan_matches(f, p))
    } else {
        None
    }
}

/// There is at most one plan.
pub proof fn lemma_plan_unique(f: FuncView, p: Plan, q: Plan)
    requires
        plan_matches(f, p),
        plan_matches(f, q),
    ensures
        p == q,
{
    let l = loops::loops_of(f)[0];
    let r = choose|r: Recurrence| #[trigger] recurrence_matches(f, l, p, r);
    let s = choose|s: Recurrence| #[trigger] recurrence_matches(f, l, q, s);
    assert(r.latch == s.latch);
}

/// The function with the test for the closed form at the end of the preheader,
/// and the value that decides.
pub open spec fn guarded(f: FuncView, p: Plan, zero: ValueId, modulus: ValueId, safe: ValueId) -> (
    FuncView,
    ValueId,
) {
    let b = p.preheader;
    let v1 = f.next_value();
    let f1 = patterns::with_comparison(f, b, CompareOp::Ge, p.initial_state, zero);
    let v2 = f1.next_value();
    let f2 = patterns::with_comparison(f1, b, CompareOp::Lt, p.initial_state, modulus);
    let v3 = f2.next_value();
    let f3 = patterns::with_comparison(f2, b, CompareOp::Ge, p.bound, zero);
    let v4 = f3.next_value();
    let f4 = patterns::with_comparison(f3, b, CompareOp::Le, p.bound, safe);
    let v5 = f4.next_value();
    let f5 = patterns::with_boolean(f4, b, BinaryOp::And, v1, v2);
    let v6 = f5.next_value();
    let f6 = patterns::with_boolean(f5, b, BinaryOp::And, v3, v4);
    (patterns::with_boolean(f6, b, BinaryOp::And, v5, v6), f6.next_value())
}

/// The function with `(initial + bound * delta) % modulus` in block `fast`.
pub open spec fn closed_form(
    f: FuncView,
    p: Plan,
    fast: BlockId,
    delta: ValueId,
    modulus: ValueId,
) -> (FuncView, ValueId) {
    let v1 = f.next_value();
    let f1 = patterns::with_binary(f, fast, BinaryOp::Imul, p.bound, delta);
    let v2 = f1.next_value();
    let f2 = patterns::with_binary(f1, fast, BinaryOp::Iadd, p.initial_state, v1);
    (patterns::with_binary(f2, fast, BinaryOp::Imod, v2, modulus), f2.next_value())
}

/// The function with the closed form beside the loop.
pub open spec fn collapsed(f: FuncView, p: Plan) -> FuncView {
    let fast = f.next_block();
    let f0 = f.add_block("modular.recurrence.fast"@);
    let zero = f0.next_value();
    let f1 = f0.add_const(Const::Int(0));
    let modulus = f1.next_value();
    let f2 = f1.add_const(Const::Int(p.modulus));
    let delta = f2.next_value();
    let f3 = f2.add_const(Const::Int(p.delta));
    let safe = f3.next_value();
    let f4 = f3.add_const(Const::Int(p.safe_bound));
    let (f5, use_fast) = guarded(f4, p, zero, modulus, safe);
    let (f6, reduced) = closed_form(f5, p, fast, delta, modulus);
    let f7 = f6.with_terminator(
        p.preheader,
        Some(Terminator::Branch { cond: use_fast, then_target: fast, else_target: p.header }),
    ).with_terminator(fast, Some(Terminator::Jump(p.exit)));
    let merged = f7.next_value();
    let f8 = f7.insert(
        p.exit,
        0,
        KindView::Phi { incomings: seq![(p.header, p.state), (fast, reduced)] },
        Some(Type::I32),
    );
    patterns::uses_replaced_from(
        f8,
        p.exit,
        1,
        Map::<ValueId, ValueId>::empty().insert(p.state, merged),
    )
}

/// The effect on one function. A result that would not be valid is discarded.
pub open spec fn collapsed_if_possible(f: FuncView) -> FuncView {
    match plan_of(f) {
        Some(p) => if verify::valid(collapsed(f, p)) {
            collapsed(f, p)
        } else {
            f
        },
        None => f,
    }
}

pub open spec fn collapsed_module(m: ModuleView) -> ModuleView {
    ModuleView { funcs: m.funcs.map_values(|f: FuncView| collapsed_if_possible(f)), ..m }
}

// ---------------------------------------------------------------------------
// Laws
// ---------------------------------------------------------------------------

/// The state after `n` rounds of the loop.
pub open spec fn iterated(state: int, delta: int, modulus: int, n: nat) -> int
    decreases n,
{
    if n == 0 {
        state
    } else {
        (iterated(state, delta, modulus, (n - 1) as nat) + delta) % modulus
    }
}

/// The pass keeps functions valid.
pub proof fn collapsing_keeps_validity(f: FuncView)
    requires
        verify::valid(f),
    ensures
        verify::valid(collapsed_if_possible(f)),
{
}

/// Within the guarded range the closed form is what the loop computes, and
/// neither it nor any round of the loop overflows.
pub proof fn closed_form_computes_the_loop(state: int, delta: int, modulus: int, n: nat)
    requires
        modulus > 1,
        delta > 0,
        modulus <= i32::MAX,
        0 <= state < modulus,
        n <= safe_count(delta, modulus),
    ensures
        iterated(state, delta, modulus, n) == (state + n * delta) % modulus,
        0 <= iterated(state, delta, modulus, n) < modulus,
        0 <= n * delta <= i32::MAX,
        state + n * delta <= i32::MAX,
        n > 0 ==> iterated(state, delta, modulus, (n - 1) as nat) + delta <= i32::MAX,
    decreases n,
{
    let limit = i32::MAX - (modulus - 1);
    assert(0 <= n * delta <= limit) by (nonlinear_arith)
        requires
            n >= 0,
            delta > 0,
            limit >= 0,
            n <= limit / delta,
    ;
    if n == 0 {
        assert(0 * delta == 0);
        vstd::arithmetic::div_mod::lemma_small_mod(state as nat, modulus as nat);
    } else {
        let m = (n - 1) as nat;
        closed_form_computes_the_loop(state, delta, modulus, m);
        assert(n * delta == m * delta + delta) by (nonlinear_arith)
            requires
                n == m + 1,
        ;
        assert(delta <= limit) by (nonlinear_arith)
            requires
                n >= 1,
                n * delta <= limit,
                delta > 0,
        ;
        vstd::arithmetic::div_mod::lemma_add_mod_noop_right(delta, state + m * delta, modulus);
        assert(delta + (state + m * delta) == state + n * delta);
    }
}

// ---------------------------------------------------------------------------
// Executable recognition
// ---------------------------------------------------------------------------

#[verifier::loop_isolation(false)]
fn loop_is_exact_recurrence(func: &Function, l: &NaturalLoop, r: Recurrence, state: ValueId) -> (res:
    bool)
    requires
        l@.within(func@.blocks.len()),
    ensures
        res == is_exact(func@, l@, r, state),
{
    let ghost f = func@;
    let n = l.blocks.len();
    for x in 0..n
        invariant
            forall|j: int, i: int|
                0 <= j < x && f.has_inst(l@.blocks[j], i) ==> belongs(
                    #[trigger] f.inst(l@.blocks[j], i),
                    r,
                    state,
                ),
    {
        let b = l.blocks[x];
        assert(l@.blocks[x as int].0 < f.blocks.len());
        let m = func.blocks[b.0].insts.len();
        for i in 0..m
            invariant
                m == f.block(b).insts.len(),
                forall|j: int| 0 <= j < i ==> belongs(#[trigger] f.inst(b, j), r, state),
        {
            let inst = &func.blocks[b.0].insts[i];
            assert(inst@ == f.inst(b, i as int));
            let empty = match inst.kind {
                InstKind::Nop => true,
                _ => false,
            };
            let known = match inst.result {
                Some(v) => v == r.counter || v == state || v == r.cond || v == r.added || v
                    == r.next_state || v == r.counter_next,
                None => false,
            };
            if !empty && !known {
                assert(l@.blocks.contains(b));
                assert(!belongs(f.inst(b, i as int), r, state));
                return false;
            }
        }
    }
    assert forall|b: BlockId, i: int| l@.blocks.contains(b) && f.has_inst(b, i) implies belongs(
        #[trigger] f.inst(b, i),
        r,
        state,
    ) by {
        let j = choose|j: int| 0 <= j < l@.blocks.len() && l@.blocks[j] == b;
        assert(belongs(f.inst(l@.blocks[j], i), r, state));
    }
    true
}

fn find_counter_and_state(func: &Function, l: &NaturalLoop) -> (r: Option<
    (InductionVariable, ValueId),
>)
    requires
        func@.wf(),
        func@.has_block(l.header),
    ensures
        r == counter_and_state(func@, l@),
{
    let phis = collect_phi_results(func, l.header);
    if phis.len() != 2 {
        return None;
    }
    if let Some(iv) = analyze_i32_induction(func, l, phis[0]) {
        return Some((iv, phis[1]));
    }
    if let Some(iv) = analyze_i32_induction(func, l, phis[1]) {
        return Some((iv, phis[0]));
    }
    None
}

fn find_delta(func: &Function, added: ValueId, state: ValueId) -> (r: Option<i32>)
    ensures
        r == delta_of(func@, added, state),
{
    match as_binary(func, added) {
        Some((BinaryOp::Iadd, a, b)) => {
            if a == state {
                const_i32(func, b)
            } else if b == state {
                const_i32(func, a)
            } else {
                None
            }
        },
        _ => None,
    }
}

/// The plan for one loop.
fn match_recurrence(func: &Function, l: &NaturalLoop) -> (res: Option<(Plan, Recurrence)>)
    requires
        func@.wf(),
        l@.within(func@.blocks.len()),
    ensures
        match res {
            Some((p, r)) => recurrence_matches(func@, l@, p, r),
            None => forall|p: Plan, r: Recurrence| !(#[trigger] recurrence_matches(
                func@,
                l@,
                p,
                r,
            )),
        },
{
    let preheader = l.dedicated_preheader?;
    let latch = l.unique_latch()?;
    let exit = l.unique_exit()?;
    assert(exit.0 < func@.blocks.len()) by {
        assert(l@.exit_edges[0].1.0 < func@.blocks.len());
    }
    if l.blocks.len() > MAX_LOOP_BLOCKS || block_has_phi(func, exit) {
        return None;
    }
    let (iv, state) = find_counter_and_state(func, l)?;
    if iv.step != 1 || !is_const_i32(func, iv.initial, 0) {
        return None;
    }
    let (cond, then_target, else_target) = as_branch(func, l.header)?;
    if !l.contains(then_target) || l.contains(else_target) {
        return None;
    }
    let (op, lhs, bound) = as_compare(func, cond)?;
    if op != CompareOp::Lt || lhs != iv.phi || is_defined_in(func, bound, &l.blocks) {
        return None;
    }
    let initial_state = phi_incoming(func, state, preheader)?;
    let next_state = phi_incoming(func, state, latch)?;
    let (op, added, modulus_value) = as_binary(func, next_state)?;
    if op != BinaryOp::Imod {
        return None;
    }
    let modulus = const_i32(func, modulus_value)?;
    if modulus <= 1 {
        return None;
    }
    let delta = find_delta(func, added, state)?;
    if delta <= 0 {
        return None;
    }
    proof {
        let limit = i32::MAX - (modulus as int - 1);
        vstd::arithmetic::div_mod::lemma_div_pos_is_pos(limit, delta as int);
        vstd::arithmetic::div_mod::lemma_div_is_ordered_by_denominator(limit, 1, delta as int);
    }
    let safe_bound = (i32::MAX - (modulus - 1)) / delta;
    if safe_bound < 1 {
        return None;
    }
    let r = Recurrence {
        latch,
        counter: iv.phi,
        counter_next: iv.next,
        cond,
        added,
        next_state,
    };
    if !loop_is_exact_recurrence(func, l, r, state) {
        return None;
    }
    let p = Plan {
        header: l.header,
        preheader,
        exit,
        state,
        initial_state,
        bound,
        delta,
        modulus,
        safe_bound,
    };
    Some((p, r))
}

/// Finds the recurrence of a function.
pub fn find_plan(func: &Function) -> (r: Option<Plan>)
    requires
        func@.wf(),
    ensures
        r == plan_of(func@),
        r matches Some(p) ==> plan_in(func@, p),
{
    if func.blocks.len() > MAX_BLOCKS || func.values.len() > MAX_VALUES {
        return None;
    }
    let graph = ControlFlowGraph::new(func);
    let dom = Dominators::new(func, &graph);
    let info = LoopInfo::new(func, &graph, &dom);
    let list = info.loops();
    assert(loops::loops_view(list@).len() == list.len());
    if list.len() != 1 {
        return None;
    }
    let l = &list[0];
    assert(loops::loops_view(list@)[0] == l@);
    proof {
        loops::lemma_listed_loop(func@, 0);
    }
    match match_recurrence(func, l) {
        Some((p, r)) => {
            proof {
                assert(recurrence_matches(func@, loops::loops_of(func@)[0], p, r));
                assert(plan_matches(func@, p));
                lemma_plan_unique(func@, p, plan_of(func@)->0);
                lemma_recurrence_in(func@, l@, p, r);
            }
            Some(p)
        },
        None => None,
    }
}

/// The parts of the plan exist.
pub open spec fn plan_in(f: FuncView, p: Plan) -> bool {
    &&& f.has_block(p.header)
    &&& f.has_block(p.preheader)
    &&& f.has_block(p.exit)
    &&& f.has_value(p.state)
    &&& f.has_value(p.initial_state)
    &&& f.has_value(p.bound)
}

proof fn lemma_recurrence_in(f: FuncView, l: LoopView, p: Plan, r: Recurrence)
    requires
        f.wf(),
        l.within(f.blocks.len()),
        recurrence_matches(f, l, p, r),
    ensures
        plan_in(f, p),
{
    assert(l.exit_edges[0].1.0 < f.blocks.len());
    loops::lemma_phi_incoming_wf(f, p.state, p.preheader);
    loops::lemma_def_kind_wf(f, r.cond);
    assert(f.has_value(p.state));
}

// ---------------------------------------------------------------------------
// Executable rewriting
// ---------------------------------------------------------------------------

fn append_guard(func: &mut Function, p: Plan, zero: ValueId, modulus: ValueId, safe: ValueId) -> (r:
    ValueId)
    requires
        old(func)@.wf(),
        plan_in(old(func)@, p),
        old(func)@.has_value(zero),
        old(func)@.has_value(modulus),
        old(func)@.has_value(safe),
    ensures
        (final(func)@, r) == guarded(old(func)@, p, zero, modulus, safe),
        final(func)@.wf(),
        final(func)@.has_value(r),
        final(func)@.blocks.len() == old(func)@.blocks.len(),
        final(func)@.values.len() == old(func)@.values.len() + 7,
{
    let b = p.preheader;
    assert(func.values.len() == func@.values.len());
    let v1 = append_comparison(func, b, CompareOp::Ge, p.initial_state, zero);
    assert(func.values.len() == func@.values.len());
    let v2 = append_comparison(func, b, CompareOp::Lt, p.initial_state, modulus);
    assert(func.values.len() == func@.values.len());
    let v3 = append_comparison(func, b, CompareOp::Ge, p.bound, zero);
    assert(func.values.len() == func@.values.len());
    let v4 = append_comparison(func, b, CompareOp::Le, p.bound, safe);
    assert(func.values.len() == func@.values.len());
    let v5 = append_boolean(func, b, BinaryOp::And, v1, v2);
    assert(func.values.len() == func@.values.len());
    let v6 = append_boolean(func, b, BinaryOp::And, v3, v4);
    assert(func.values.len() == func@.values.len());
    let v7 = append_boolean(func, b, BinaryOp::And, v5, v6);
    assert(func.values.len() == func@.values.len());
    v7
}

fn append_closed_form(
    func: &mut Function,
    p: Plan,
    fast: BlockId,
    delta: ValueId,
    modulus: ValueId,
) -> (r: ValueId)
    requires
        old(func)@.wf(),
        plan_in(old(func)@, p),
        old(func)@.has_block(fast),
        old(func)@.has_value(delta),
        old(func)@.has_value(modulus),
    ensures
        (final(func)@, r) == closed_form(old(func)@, p, fast, delta, modulus),
        final(func)@.wf(),
        final(func)@.has_value(r),
        final(func)@.blocks.len() == old(func)@.blocks.len(),
        final(func)@.values.len() == old(func)@.values.len() + 3,
{
    assert(func.values.len() == func@.values.len());
    let v1 = append_binary(func, fast, BinaryOp::Imul, p.bound, delta);
    assert(func.values.len() == func@.values.len());
    let v2 = append_binary(func, fast, BinaryOp::Iadd, p.initial_state, v1);
    assert(func.values.len() == func@.values.len());
    let v3 = append_binary(func, fast, BinaryOp::Imod, v2, modulus);
    assert(func.values.len() == func@.values.len());
    v3
}

/// Adds the closed form beside the loop.
fn apply_plan(func: &mut Function, p: Plan)
    requires
        old(func)@.wf(),
        plan_in(old(func)@, p),
    ensures
        final(func)@ == collapsed(old(func)@, p),
{
    assert(func.blocks.len() == func@.blocks.len());
    let fast = func.add_block("modular.recurrence.fast");
    assert(func.blocks.len() == func@.blocks.len());
    let zero = func.add_const(Const::Int(0));
    let modulus = func.add_const(Const::Int(p.modulus));
    let delta = func.add_const(Const::Int(p.delta));
    let safe = func.add_const(Const::Int(p.safe_bound));
    assert(func.values.len() == func@.values.len());
    let use_fast = append_guard(func, p, zero, modulus, safe);
    let reduced = append_closed_form(func, p, fast, delta, modulus);
    func.set_terminator(
        p.preheader,
        Terminator::Branch { cond: use_fast, then_target: fast, else_target: p.header },
    );
    func.set_terminator(fast, Terminator::Jump(p.exit));
    let entries = vec![(p.header, p.state), (fast, reduced)];
    assert(entries@ =~= seq![(p.header, p.state), (fast, reduced)]);
    let merged = func.insert_inst(
        p.exit,
        0,
        InstKind::Phi { incomings: entries },
        Some(Type::I32),
    );
    assert(func.values.len() == func@.values.len());
    if let Some(merged) = merged {
        let mut map = ValueMap::new();
        map.insert(p.state, merged);
        replace_uses_from(func, p.exit, 1, &map);
    }
}

/// Collapses the recurrence of a function.
pub fn collapse_function(func: &mut Function)
    requires
        old(func)@.wf(),
    ensures
        final(func)@ == collapsed_if_possible(old(func)@),
        final(func)@.wf(),
{
    if let Some(p) = find_plan(func) {
        let before = func.clone();
        apply_plan(func, p);
        if func.verify().is_err() {
            *func = before;
        }
    }
}

/// The pass over all functions of a module.
pub struct ModularRecurrencePass;

impl ModularRecurrencePass {
    pub fn new() -> (r: Self) {
        ModularRecurrencePass
    }

    /// Collapses the recurrences of every function.
    pub fn run(&self, module: &mut Module)
        requires
            old(module)@.wf(),
        ensures
            final(module)@ == collapsed_module(old(module)@),
            final(module)@.wf(),
    {
        let ghost m = module@;
        let ghost want = collapsed_module(m);
        let n = module.funcs.len();
        for k in 0..n
            invariant
                n == module.funcs.len(),
                n == m.funcs.len(),
                m.wf(),
                module@ == (ModuleView { funcs: module@.funcs, ..m }),
                want == collapsed_module(m),
                forall|j: int|
                    0 <= j < k ==> #[trigger] module@.funcs[j] == want.funcs[j]
                        && module@.funcs[j].wf(),
                forall|j: int| k <= j < n ==> #[trigger] module@.funcs[j] == m.funcs[j],
        {
            assert(module@.funcs[k as int] == m.funcs[k as int]);
            let ghost before = module@.funcs;
            collapse_function(&mut module.funcs[k]);
            assert(module@.funcs =~= before.update(k as int, module.funcs@[k as int]@));
        }
        assert(module@.funcs =~= want.funcs);
    }
}

} // verus!
