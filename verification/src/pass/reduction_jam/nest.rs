//! Recognition of loop nests that can be jammed.
use vstd::prelude::*;

use crate::cfg::Dominators;
use crate::ir::{BlockId, FuncView, Function, Type, ValueId};
use crate::loops;
use crate::loops::{
    analyze_const_i32_trip_count, analyze_i32_induction, holds_exactly, smallest_enclosing,
    InductionVariable, LoopView, NaturalLoop,
};
use crate::pass::reduction_jam::lanes;
use crate::pass::reduction_jam::lanes::proves_lane_independence;
use crate::pass::reduction_jam::shape;
use crate::pass::reduction_jam::shape::{
    block_operands_cloneable, block_results, canonical_less_than_bound,
    executable_instruction_count, find_only_store, has_exact_conditional_merge,
    has_only_phi_and_branch_condition, inner_results_have_no_extra_liveouts, is_pure_block,
    loop_inside_target, phi_pair, value_mappable,
};
use crate::patterns;
use crate::patterns::{as_branch, collect_phi_results, contains_value};
use crate::query;
use crate::query::{jump_target, value_available_at_block};
use crate::util;
use crate::util::{const_i32, defining_block};

verus! {

pub const MAX_SETUP_INSTRUCTIONS: usize = 16;

pub const MAX_INNER_INSTRUCTIONS: usize = 32;

pub const MAX_CONDITIONAL_INNER_INSTRUCTIONS: usize = 24;

/// An outer loop around an inner reduction whose result it stores.
#[derive(Clone, Copy, PartialEq, Eq, Structural)]
pub struct Nest {
    pub outer_header: BlockId,
    pub outer_preheader: BlockId,
    pub outer_induction: InductionVariable,
    pub outer_initial: i32,
    pub outer_bound: ValueId,
    pub outer_trip_count: Option<u32>,
    pub inner_header: BlockId,
    pub inner_preheader: BlockId,
    pub inner_latch: BlockId,
    pub inner_exit: BlockId,
    pub inner_induction: InductionVariable,
    pub inner_bound: ValueId,
    pub accumulator: ValueId,
    pub accumulator_initial: ValueId,
    pub accumulator_next: ValueId,
    pub store_ptr: ValueId,
}

/// A nest whose inner loop adds under a condition.
#[derive(Clone, Copy, PartialEq, Eq, Structural)]
pub struct ConditionalNest {
    pub nest: Nest,
    pub condition: BlockId,
    pub update: BlockId,
}

// ---------------------------------------------------------------------------
// Mathematical model
// ---------------------------------------------------------------------------

/// The first phi from `k` on that counts by one.
pub open spec fn unit_induction(f: FuncView, l: LoopView, phis: Seq<ValueId>, k: int) -> Option<
    InductionVariable,
>
    decreases phis.len() - k,
{
    if k < 0 || k >= phis.len() {
        None
    } else {
        match loops::induction_of(f, l, phis[k]) {
            Some(iv) => if iv.step == 1 {
                Some(iv)
            } else {
                unit_induction(f, l, phis, k + 1)
            },
            None => unit_induction(f, l, phis, k + 1),
        }
    }
}

/// The first integer phi from `k` on that is not the counter.
pub open spec fn integer_beside(f: FuncView, phis: Seq<ValueId>, counter: ValueId, k: int) -> Option<
    ValueId,
>
    decreases phis.len() - k,
{
    if k < 0 || k >= phis.len() {
        None
    } else if phis[k] != counter && f.value(phis[k]).ty == Type::I32 {
        Some(phis[k])
    } else {
        integer_beside(f, phis, counter, k + 1)
    }
}

/// The inner loop fits the nest.
pub open spec fn inner_fits(f: FuncView, inner: LoopView, n: Nest) -> bool {
    let phis = patterns::phi_results(f, inner.header);
    &&& n.inner_header == inner.header
    &&& inner.unique_latch() == Some(n.inner_latch)
    &&& inner.dedicated_preheader == Some(n.inner_preheader)
    &&& inner.unique_exit() == Some(n.inner_exit)
    &&& query::jump_of(f, n.inner_latch) == Some(inner.header)
    &&& query::jump_of(f, n.inner_preheader) == Some(inner.header)
    &&& shape::size_of(f, n.inner_preheader) <= MAX_SETUP_INSTRUCTIONS
    &&& shape::is_plain_header(f, inner.header)
    &&& shape::is_movable_block(f, n.inner_preheader, false)
    &&& phis.len() == 2
    &&& unit_induction(f, inner, phis, 0) == Some(n.inner_induction)
    &&& integer_beside(f, phis, n.inner_induction.phi, 0) == Some(n.accumulator)
    &&& shape::pair_of(f, n.accumulator, n.inner_preheader, n.inner_latch) == Some(
        (n.accumulator_initial, n.accumulator_next),
    )
    &&& shape::bound_of(f, inner, n.inner_induction.phi) == Some(n.inner_bound)
}

/// The blocks of the outer loop.
pub open spec fn outer_blocks(outer: LoopView, inner: LoopView, n: Nest) -> Seq<BlockId> {
    inner.blocks.push(outer.header).push(n.inner_preheader).push(n.inner_exit)
}

/// The outer loop fits the nest.
pub open spec fn outer_fits(f: FuncView, outer: LoopView, inner: LoopView, n: Nest) -> bool {
    let phis = patterns::phi_results(f, outer.header);
    &&& n.outer_header == outer.header
    &&& outer.dedicated_preheader == Some(n.outer_preheader)
    &&& outer.unique_latch() == Some(n.inner_exit)
    &&& loops::is_exactly(outer, outer_blocks(outer, inner, n))
    &&& query::jump_of(f, n.outer_preheader) == Some(outer.header)
    &&& query::jump_of(f, n.inner_exit) == Some(outer.header)
    &&& shape::is_plain_header(f, outer.header)
    &&& phis.len() == 1
    &&& loops::induction_of(f, outer, phis[0]) == Some(n.outer_induction)
    &&& n.outer_induction.step == 1
    &&& util::const_i32_of(f, n.outer_induction.initial) == Some(n.outer_initial)
    &&& 0 <= n.outer_initial < i32::MAX
    &&& n.outer_initial as int % 2 == 0
    &&& shape::bound_of(f, outer, n.outer_induction.phi) == Some(n.outer_bound)
    &&& n.outer_trip_count == loops::trip_count_of(f, outer, n.outer_induction)
    &&& shape::inside_of(f, outer) == Some(n.inner_preheader)
}

/// The values of the nest can be had before the outer loop or in the copies,
/// and the lanes are independent.
pub open spec fn values_fit(f: FuncView, n: Nest, load_blocks: Seq<BlockId>) -> bool {
    let counter = n.outer_induction.phi;
    let p = n.outer_preheader;
    &&& query::available_at(f, n.outer_bound, p)
    &&& query::available_at(f, n.inner_bound, p)
    &&& query::available_at(f, n.inner_induction.initial, p)
    &&& shape::is_mappable(f, n.accumulator_initial, p, counter, seq![n.inner_preheader])
    &&& shape::only_store(f, n.inner_exit) == Some((n.store_ptr, n.accumulator))
    &&& shape::is_mappable(
        f,
        n.store_ptr,
        p,
        counter,
        seq![n.inner_preheader, n.inner_exit],
    )
    &&& lanes::lanes_are_independent(f, n.store_ptr, n.accumulator, counter, load_blocks, 2)
}

/// The values that stand for others in the copy of the inner loop.
pub open spec fn loop_mapped(f: FuncView, n: Nest) -> Seq<ValueId> {
    shape::results_of(f, n.inner_preheader).push(n.outer_induction.phi).push(
        n.inner_induction.phi,
    ).push(n.accumulator)
}

/// The loops make the nest.
pub open spec fn nest_fits(
    f: FuncView,
    list: Seq<LoopView>,
    inner: LoopView,
    n: Nest,
    load_blocks: Seq<BlockId>,
) -> bool {
    &&& inner_fits(f, inner, n)
    &&& loops::smallest_below(
        list,
        inner,
        n.inner_preheader,
        n.inner_exit,
        list.len() as int,
    ) matches Some(k)
    &&& outer_fits(f, list[k], inner, n)
    &&& values_fit(f, n, load_blocks)
    &&& shape::is_cloneable(
        f,
        n.inner_preheader,
        n.outer_preheader,
        seq![n.outer_induction.phi],
        false,
    )
    &&& shape::is_cloneable(f, n.inner_exit, n.outer_preheader, loop_mapped(f, n), true)
}

/// The inner loop has a single block besides its header.
pub open spec fn plain_fits(f: FuncView, list: Seq<LoopView>, inner: LoopView, n: Nest) -> bool {
    &&& nest_fits(f, list, inner, n, seq![n.inner_latch])
    &&& loops::is_exactly(inner, seq![inner.header, n.inner_latch])
    &&& shape::size_of(f, n.inner_latch) <= MAX_INNER_INSTRUCTIONS
    &&& shape::is_movable_block(f, n.inner_latch, true)
    &&& shape::is_cloneable(f, n.inner_latch, n.outer_preheader, loop_mapped(f, n), false)
}

/// The block that the condition leads to besides the merge.
pub open spec fn update_of(f: FuncView, condition: BlockId, merge: BlockId) -> Option<BlockId> {
    match patterns::branch_of(f, condition) {
        Some((_, t, e)) => if t == merge && e != merge {
            Some(e)
        } else if t != merge && e == merge {
            Some(t)
        } else {
            None
        },
        None => None,
    }
}

/// The condition of the branch can be had in the copy.
pub open spec fn condition_cloneable(
    f: FuncView,
    b: BlockId,
    preheader: BlockId,
    mapped: Seq<ValueId>,
) -> bool {
    match patterns::branch_of(f, b) {
        Some((cond, _, _)) => mapped.contains(cond) || query::available_at(f, cond, preheader),
        None => false,
    }
}

/// The accumulator is kept, or updated in the update block.
pub open spec fn selects_update(f: FuncView, n: Nest, condition: BlockId, update: BlockId) -> bool {
    &&& patterns::phi_results(f, n.inner_latch) == seq![n.accumulator_next]
    &&& shape::pair_of(f, n.accumulator_next, condition, update) matches Some((kept, updated))
    &&& kept == n.accumulator
    &&& updated != n.accumulator
    &&& util::def_block(f, updated) == Some(update)
    &&& f.value(updated).ty == Type::I32
    &&& shape::is_merge_from(
        f.block(n.inner_latch).insts,
        n.accumulator_next,
        n.inner_induction.next,
        false,
        false,
        0,
    )
}

/// The values that stand for others in the copy of the update block.
pub open spec fn update_mapped(f: FuncView, n: Nest, condition: BlockId) -> Seq<ValueId> {
    loop_mapped(f, n) + shape::results_of(f, condition)
}

/// The inner loop adds under a condition.
pub open spec fn conditional_fits(
    f: FuncView,
    list: Seq<LoopView>,
    inner: LoopView,
    c: ConditionalNest,
) -> bool {
    let n = c.nest;
    let p = n.outer_preheader;
    &&& nest_fits(f, list, inner, n, seq![c.condition, c.update])
    &&& shape::inside_of(f, inner) == Some(c.condition)
    &&& update_of(f, c.condition, n.inner_latch) == Some(c.update)
    &&& loops::is_exactly(inner, seq![inner.header, c.condition, c.update, n.inner_latch])
    &&& query::jump_of(f, c.update) == Some(n.inner_latch)
    &&& shape::is_movable_block(f, c.condition, true)
    &&& shape::is_movable_block(f, c.update, true)
    &&& shape::size_of(f, c.condition) + shape::size_of(f, c.update)
        <= MAX_CONDITIONAL_INNER_INSTRUCTIONS
    &&& selects_update(f, n, c.condition, c.update)
    &&& !(n.outer_trip_count matches Some(count) && count < 2)
    &&& shape::has_no_live_outs(f, inner, n.accumulator, n.inner_exit)
    &&& shape::is_cloneable(f, c.condition, p, loop_mapped(f, n), false)
    &&& condition_cloneable(f, c.condition, p, update_mapped(f, n, c.condition))
    &&& shape::is_cloneable(f, c.update, p, update_mapped(f, n, c.condition), false)
}

/// The parts of the nest exist.
pub open spec fn nest_in(f: FuncView, n: Nest) -> bool {
    &&& f.has_block(n.outer_header)
    &&& f.has_block(n.outer_preheader)
    &&& f.has_block(n.inner_header)
    &&& f.has_block(n.inner_preheader)
    &&& f.has_block(n.inner_latch)
    &&& f.has_block(n.inner_exit)
    &&& f.has_value(n.outer_induction.phi)
    &&& f.has_value(n.outer_induction.initial)
    &&& f.has_value(n.outer_induction.next)
    &&& f.has_value(n.outer_bound)
    &&& f.has_value(n.inner_induction.phi)
    &&& f.has_value(n.inner_induction.initial)
    &&& f.has_value(n.inner_induction.next)
    &&& f.has_value(n.inner_bound)
    &&& f.has_value(n.accumulator)
    &&& f.has_value(n.accumulator_initial)
    &&& f.has_value(n.accumulator_next)
    &&& f.has_value(n.store_ptr)
}

// ---------------------------------------------------------------------------
// Executable functions
// ---------------------------------------------------------------------------

fn find_unit_induction(func: &Function, l: &NaturalLoop, phis: &Vec<ValueId>) -> (r: Option<
    InductionVariable,
>)
    requires
        func@.wf(),
    ensures
        r == unit_induction(func@, l@, phis@, 0),
        r matches Some(iv) ==> func@.has_value(iv.phi) && func@.has_value(iv.initial)
            && func@.has_value(iv.next),
{
    let n = phis.len();
    for k in 0..n
        invariant
            n == phis.len(),
            func@.wf(),
            unit_induction(func@, l@, phis@, 0) == unit_induction(func@, l@, phis@, k as int),
    {
        if let Some(iv) = analyze_i32_induction(func, l, phis[k]) {
            if iv.step == 1 {
                proof {
                    loops::lemma_induction_wf(func@, l@, phis@[k as int]);
                }
                return Some(iv);
            }
        }
    }
    None
}

fn find_integer_beside(func: &Function, phis: &Vec<ValueId>, counter: ValueId) -> (r: Option<
    ValueId,
>)
    requires
        crate::edit::reads_wf(phis@, func@.values.len()),
    ensures
        r == integer_beside(func@, phis@, counter, 0),
        r matches Some(v) ==> func@.has_value(v),
{
    let n = phis.len();
    for k in 0..n
        invariant
            n == phis.len(),
            crate::edit::reads_wf(phis@, func@.values.len()),
            integer_beside(func@, phis@, counter, 0) == integer_beside(
                func@,
                phis@,
                counter,
                k as int,
            ),
    {
        let v = phis[k];
        assert(phis@[k as int].0 < func@.values.len());
        assert(func.values@[v.0 as int]@ == func@.value(v));
        if v != counter && func.values[v.0].ty.same(&Type::I32) {
            return Some(v);
        }
    }
    None
}

fn jumps_to(func: &Function, b: BlockId, target: BlockId) -> (r: bool)
    requires
        func@.has_block(b),
    ensures
        r == (query::jump_of(func@, b) == Some(target)),
{
    match jump_target(func, b) {
        Some(t) => t == target,
        None => false,
    }
}

/// The parts of the inner loop.
pub struct Inner {
    pub header: BlockId,
    pub latch: BlockId,
    pub preheader: BlockId,
    pub exit: BlockId,
    pub induction: InductionVariable,
    pub accumulator: ValueId,
    pub initial: ValueId,
    pub next: ValueId,
    pub bound: ValueId,
}

/// The inner parts are those of the nest.
pub open spec fn same_inner(i: Inner, n: Nest) -> bool {
    &&& i.header == n.inner_header
    &&& i.latch == n.inner_latch
    &&& i.preheader == n.inner_preheader
    &&& i.exit == n.inner_exit
    &&& i.induction == n.inner_induction
    &&& i.accumulator == n.accumulator
    &&& i.initial == n.accumulator_initial
    &&& i.next == n.accumulator_next
    &&& i.bound == n.inner_bound
}

pub open spec fn inner_in(f: FuncView, i: Inner) -> bool {
    &&& f.has_block(i.header)
    &&& f.has_block(i.latch)
    &&& f.has_block(i.preheader)
    &&& f.has_block(i.exit)
    &&& f.has_value(i.induction.phi)
    &&& f.has_value(i.induction.initial)
    &&& f.has_value(i.induction.next)
    &&& f.has_value(i.accumulator)
    &&& f.has_value(i.initial)
    &&& f.has_value(i.next)
    &&& f.has_value(i.bound)
}

fn match_inner(func: &Function, inner: &NaturalLoop) -> (r: Option<Inner>)
    requires
        func@.wf(),
        inner@.within(func@.blocks.len()),
    ensures
        match r {
            Some(i) => (forall|n: Nest| #[trigger]
                inner_fits(func@, inner@, n) <==> same_inner(i, n)) && inner_in(func@, i),
            None => forall|n: Nest| !(#[trigger] inner_fits(func@, inner@, n)),
        },
{
    let latch = inner.unique_latch()?;
    let preheader = inner.dedicated_preheader?;
    let exit = inner.unique_exit()?;
    proof {
        assert(inner@.latches[0].0 < func@.blocks.len());
        assert(inner@.exit_edges[0].1.0 < func@.blocks.len());
    }
    if !jumps_to(func, latch, inner.header) || !jumps_to(func, preheader, inner.header) {
        return None;
    }
    if executable_instruction_count(func, preheader) > MAX_SETUP_INSTRUCTIONS {
        return None;
    }
    if !has_only_phi_and_branch_condition(func, inner.header) || !is_pure_block(
        func,
        preheader,
        false,
    ) {
        return None;
    }
    let phis = collect_phi_results(func, inner.header);
    if phis.len() != 2 {
        return None;
    }
    let induction = find_unit_induction(func, inner, &phis)?;
    let accumulator = find_integer_beside(func, &phis, induction.phi)?;
    let (initial, next) = phi_pair(func, accumulator, preheader, latch)?;
    let bound = canonical_less_than_bound(func, inner, induction.phi)?;
    Some(
        Inner {
            header: inner.header,
            latch,
            preheader,
            exit,
            induction,
            accumulator,
            initial,
            next,
            bound,
        },
    )
}

/// The parts of the outer loop.
pub struct Outer {
    pub header: BlockId,
    pub preheader: BlockId,
    pub induction: InductionVariable,
    pub initial: i32,
    pub bound: ValueId,
    pub trip_count: Option<u32>,
}

pub open spec fn same_outer(o: Outer, n: Nest) -> bool {
    &&& o.header == n.outer_header
    &&& o.preheader == n.outer_preheader
    &&& o.induction == n.outer_induction
    &&& o.initial == n.outer_initial
    &&& o.bound == n.outer_bound
    &&& o.trip_count == n.outer_trip_count
}

pub open spec fn outer_in(f: FuncView, o: Outer) -> bool {
    &&& f.has_block(o.header)
    &&& f.has_block(o.preheader)
    &&& f.has_value(o.induction.phi)
    &&& f.has_value(o.induction.initial)
    &&& f.has_value(o.induction.next)
    &&& f.has_value(o.bound)
}

fn list_outer_blocks(outer: &NaturalLoop, inner: &NaturalLoop, i: &Inner) -> (r: Vec<BlockId>)
    ensures
        r@ == inner@.blocks.push(outer@.header).push(i.preheader).push(i.exit),
{
    let mut r: Vec<BlockId> = Vec::new();
    let n = inner.blocks.len();
    for k in 0..n
        invariant
            n == inner.blocks.len(),
            r@ == inner@.blocks.take(k as int),
    {
        r.push(inner.blocks[k]);
        assert(r@ =~= inner@.blocks.take(k + 1));
    }
    assert(inner@.blocks.take(n as int) =~= inner@.blocks);
    r.push(outer.header);
    r.push(i.preheader);
    r.push(i.exit);
    r
}

fn match_outer(func: &Function, outer: &NaturalLoop, inner: &NaturalLoop, i: &Inner) -> (r: Option<
    Outer,
>)
    requires
        func@.wf(),
        outer@.within(func@.blocks.len()),
        inner_in(func@, *i),
    ensures
        match r {
            Some(o) => (forall|n: Nest|
                same_inner(*i, n) ==> (#[trigger] outer_fits(func@, outer@, inner@, n)
                    <==> same_outer(o, n))) && outer_in(func@, o),
            None => forall|n: Nest|
                same_inner(*i, n) ==> !(#[trigger] outer_fits(func@, outer@, inner@, n)),
        },
{
    let preheader = outer.dedicated_preheader?;
    let latch = outer.unique_latch()?;
    if latch != i.exit {
        return None;
    }
    let blocks = list_outer_blocks(outer, inner, i);
    if !holds_exactly(outer, &blocks) {
        return None;
    }
    if !jumps_to(func, preheader, outer.header) || !jumps_to(func, i.exit, outer.header)
        || !has_only_phi_and_branch_condition(func, outer.header) {
        return None;
    }
    let phis = collect_phi_results(func, outer.header);
    if phis.len() != 1 {
        return None;
    }
    let induction = analyze_i32_induction(func, outer, phis[0])?;
    proof {
        loops::lemma_induction_wf(func@, outer@, phis@[0]);
    }
    if induction.step != 1 {
        return None;
    }
    let initial = const_i32(func, induction.initial)?;
    if initial < 0 || initial >= i32::MAX || initial % 2 != 0 {
        return None;
    }
    let bound = canonical_less_than_bound(func, outer, induction.phi)?;
    let trip_count = analyze_const_i32_trip_count(func, outer, induction);
    match loop_inside_target(func, outer) {
        Some(b) => if b != i.preheader {
            return None;
        },
        None => return None,
    }
    Some(Outer { header: outer.header, preheader, induction, initial, bound, trip_count })
}

fn join(i: &Inner, o: &Outer, store_ptr: ValueId) -> (r: Nest)
    ensures
        same_inner(*i, r),
        same_outer(*o, r),
        r.store_ptr == store_ptr,
{
    Nest {
        outer_header: o.header,
        outer_preheader: o.preheader,
        outer_induction: o.induction,
        outer_initial: o.initial,
        outer_bound: o.bound,
        outer_trip_count: o.trip_count,
        inner_header: i.header,
        inner_preheader: i.preheader,
        inner_latch: i.latch,
        inner_exit: i.exit,
        inner_induction: i.induction,
        inner_bound: i.bound,
        accumulator: i.accumulator,
        accumulator_initial: i.initial,
        accumulator_next: i.next,
        store_ptr,
    }
}

fn check_values(func: &Function, dom: &Dominators, n: Nest, load_blocks: &Vec<BlockId>) -> (r: bool)
    requires
        func@.wf(),
        dom.of(func@),
        nest_in(func@, n),
        shape::only_store(func@, n.inner_exit) == Some((n.store_ptr, n.accumulator)),
        forall|k: int| 0 <= k < load_blocks.len() ==> func@.has_block(#[trigger] load_blocks@[k]),
    ensures
        r == values_fit(func@, n, load_blocks@),
{
    let p = n.outer_preheader;
    let counter = n.outer_induction.phi;
    if !value_available_at_block(func, dom, n.outer_bound, p) || !value_available_at_block(
        func,
        dom,
        n.inner_bound,
        p,
    ) || !value_available_at_block(func, dom, n.inner_induction.initial, p) {
        return false;
    }
    let setup = vec![n.inner_preheader];
    assert(setup@ =~= seq![n.inner_preheader]);
    let around = vec![n.inner_preheader, n.inner_exit];
    assert(around@ =~= seq![n.inner_preheader, n.inner_exit]);
    value_mappable(func, dom, n.accumulator_initial, p, counter, &setup) && value_mappable(
        func,
        dom,
        n.store_ptr,
        p,
        counter,
        &around,
    ) && proves_lane_independence(func, n.store_ptr, n.accumulator, counter, load_blocks, 2)
}

pub fn mapped_in_loop(func: &Function, n: Nest) -> (r: Vec<ValueId>)
    requires
        func@.has_block(n.inner_preheader),
    ensures
        r@ == loop_mapped(func@, n),
{
    let mut r = block_results(func, n.inner_preheader);
    r.push(n.outer_induction.phi);
    r.push(n.inner_induction.phi);
    r.push(n.accumulator);
    r
}

fn check_setup(func: &Function, dom: &Dominators, n: Nest) -> (r: bool)
    requires
        func@.wf(),
        dom.of(func@),
        nest_in(func@, n),
    ensures
        r == (shape::is_cloneable(
            func@,
            n.inner_preheader,
            n.outer_preheader,
            seq![n.outer_induction.phi],
            false,
        ) && shape::is_cloneable(
            func@,
            n.inner_exit,
            n.outer_preheader,
            loop_mapped(func@, n),
            true,
        )),
{
    let counter = vec![n.outer_induction.phi];
    assert(counter@ =~= seq![n.outer_induction.phi]);
    let mapped = mapped_in_loop(func, n);
    block_operands_cloneable(func, dom, n.inner_preheader, n.outer_preheader, &counter, false)
        && block_operands_cloneable(func, dom, n.inner_exit, n.outer_preheader, &mapped, true)
}

/// The parts of the nest that do not depend on where it loads.
pub open spec fn frame_fits(f: FuncView, list: Seq<LoopView>, inner: LoopView, n: Nest) -> bool {
    &&& inner_fits(f, inner, n)
    &&& loops::smallest_below(
        list,
        inner,
        n.inner_preheader,
        n.inner_exit,
        list.len() as int,
    ) matches Some(k)
    &&& outer_fits(f, list[k], inner, n)
    &&& shape::only_store(f, n.inner_exit) == Some((n.store_ptr, n.accumulator))
}

/// Finds the nest around an inner loop, but for its values.
fn match_frame(func: &Function, list: &Vec<NaturalLoop>, inner: &NaturalLoop) -> (r: Option<Nest>)
    requires
        func@.wf(),
        inner@.within(func@.blocks.len()),
        forall|k: int| 0 <= k < list.len() ==> (#[trigger] list@[k])@.within(func@.blocks.len()),
    ensures
        match r {
            Some(n) => frame_fits(func@, loops::loops_view(list@), inner@, n) && nest_in(func@, n),
            None => true,
        },
        forall|n: Nest| #[trigger]
            frame_fits(func@, loops::loops_view(list@), inner@, n) ==> r == Some(n),
{
    let ghost views = loops::loops_view(list@);
    assert(views.len() == list.len());
    let i = match_inner(func, inner)?;
    let k = smallest_enclosing(list, inner, i.preheader, i.exit)?;
    assert(views[k as int] == list@[k as int]@);
    let o = match_outer(func, &list[k], inner, &i)?;
    let (ptr, value) = find_only_store(func, i.exit)?;
    if value != i.accumulator {
        return None;
    }
    let n = join(&i, &o, ptr);
    assert(inner_fits(func@, inner@, n));
    assert(outer_fits(func@, list@[k as int]@, inner@, n));
    assert forall|m: Nest| #[trigger] frame_fits(func@, views, inner@, m) implies m == n by {
        assert(same_inner(i, m));
        assert(outer_fits(func@, list@[k as int]@, inner@, m));
        assert(same_outer(o, m));
    }
    Some(n)
}

/// Finds the nest with a single inner block around an inner loop.
pub fn match_plain(func: &Function, dom: &Dominators, list: &Vec<NaturalLoop>, at: usize) -> (r: Option<
    Nest,
>)
    requires
        func@.wf(),
        dom.of(func@),
        at < list.len(),
        forall|k: int| 0 <= k < list.len() ==> (#[trigger] list@[k])@.within(func@.blocks.len()),
    ensures
        match r {
            Some(n) => plain_fits(func@, loops::loops_view(list@), list@[at as int]@, n)
                && nest_in(func@, n),
            None => true,
        },
        forall|n: Nest| #[trigger]
            plain_fits(func@, loops::loops_view(list@), list@[at as int]@, n) ==> r == Some(n),
{
    let inner = &list[at];
    assert(list@[at as int]@.within(func@.blocks.len()));
    let ghost views = loops::loops_view(list@);
    assert forall|n: Nest| #[trigger] plain_fits(func@, views, inner@, n) implies frame_fits(
        func@,
        views,
        inner@,
        n,
    ) by {}
    let n = match_frame(func, list, inner)?;
    let blocks = vec![inner.header, n.inner_latch];
    assert(blocks@ =~= seq![inner@.header, n.inner_latch]);
    if !holds_exactly(inner, &blocks) || executable_instruction_count(func, n.inner_latch)
        > MAX_INNER_INSTRUCTIONS || !is_pure_block(func, n.inner_latch, true) {
        return None;
    }
    let loads = vec![n.inner_latch];
    assert(loads@ =~= seq![n.inner_latch]);
    if !check_values(func, dom, n, &loads) || !check_setup(func, dom, n) {
        return None;
    }
    let mapped = mapped_in_loop(func, n);
    if !block_operands_cloneable(func, dom, n.inner_latch, n.outer_preheader, &mapped, false) {
        return None;
    }
    Some(n)
}

fn find_update(func: &Function, condition: BlockId, merge: BlockId) -> (r: Option<BlockId>)
    requires
        func@.wf(),
    ensures
        r == update_of(func@, condition, merge),
        r matches Some(b) ==> func@.has_block(b),
{
    let (_, t, e) = as_branch(func, condition)?;
    proof {
        query::lemma_terminator_wf(func@, condition);
    }
    if t == merge && e != merge {
        Some(e)
    } else if t != merge && e == merge {
        Some(t)
    } else {
        None
    }
}

fn check_condition_cloneable(
    func: &Function,
    dom: &Dominators,
    b: BlockId,
    preheader: BlockId,
    mapped: &Vec<ValueId>,
) -> (r: bool)
    requires
        func@.wf(),
        dom.of(func@),
        func@.has_block(preheader),
    ensures
        r == condition_cloneable(func@, b, preheader, mapped@),
{
    match as_branch(func, b) {
        Some((cond, _, _)) => {
            proof {
                query::lemma_terminator_wf(func@, b);
            }
            contains_value(mapped, cond) || value_available_at_block(func, dom, cond, preheader)
        },
        None => false,
    }
}

fn check_selects_update(func: &Function, n: Nest, condition: BlockId, update: BlockId) -> (r: bool)
    requires
        func@.wf(),
        nest_in(func@, n),
    ensures
        r == selects_update(func@, n, condition, update),
{
    let phis = collect_phi_results(func, n.inner_latch);
    if phis.len() != 1 || phis[0] != n.accumulator_next {
        assert(seq![n.accumulator_next].len() == 1 && seq![n.accumulator_next][0]
            == n.accumulator_next);
        return false;
    }
    assert(phis@ =~= seq![n.accumulator_next]);
    let (kept, updated) = match phi_pair(func, n.accumulator_next, condition, update) {
        Some(x) => x,
        None => return false,
    };
    if kept != n.accumulator || updated == n.accumulator {
        return false;
    }
    match defining_block(func, updated) {
        Some(b) => if b != update {
            return false;
        },
        None => return false,
    }
    assert(func.values@[updated.0 as int]@ == func@.value(updated));
    func.values[updated.0].ty.same(&Type::I32) && has_exact_conditional_merge(
        func,
        n.inner_latch,
        n.accumulator_next,
        n.inner_induction.next,
    )
}

fn mapped_in_update(func: &Function, n: Nest, condition: BlockId) -> (r: Vec<ValueId>)
    requires
        func@.has_block(n.inner_preheader),
        func@.has_block(condition),
    ensures
        r@ == update_mapped(func@, n, condition),
{
    let mut r = mapped_in_loop(func, n);
    let more = block_results(func, condition);
    let ghost own = r@;
    let m = more.len();
    for k in 0..m
        invariant
            m == more.len(),
            r@ == own + more@.take(k as int),
    {
        r.push(more[k]);
        assert(r@ =~= own + more@.take(k + 1));
    }
    assert(more@.take(m as int) =~= more@);
    r
}

/// The shape of the condition and the update.
fn check_diamond(func: &Function, inner: &NaturalLoop, n: Nest, condition: BlockId, update: BlockId) -> (r:
    bool)
    requires
        func@.wf(),
        inner@.within(func@.blocks.len()),
        nest_in(func@, n),
        func@.has_block(condition),
        func@.has_block(update),
    ensures
        r == ({
            &&& loops::is_exactly(
                inner@,
                seq![inner@.header, condition, update, n.inner_latch],
            )
            &&& query::jump_of(func@, update) == Some(n.inner_latch)
            &&& shape::is_movable_block(func@, condition, true)
            &&& shape::is_movable_block(func@, update, true)
            &&& shape::size_of(func@, condition) + shape::size_of(func@, update)
                <= MAX_CONDITIONAL_INNER_INSTRUCTIONS
            &&& selects_update(func@, n, condition, update)
            &&& !(n.outer_trip_count matches Some(count) && count < 2)
            &&& shape::has_no_live_outs(func@, inner@, n.accumulator, n.inner_exit)
        }),
{
    let blocks = vec![inner.header, condition, update, n.inner_latch];
    assert(blocks@ =~= seq![inner@.header, condition, update, n.inner_latch]);
    if !holds_exactly(inner, &blocks) || !jumps_to(func, update, n.inner_latch) || !is_pure_block(
        func,
        condition,
        true,
    ) || !is_pure_block(func, update, true) {
        return false;
    }
    let a = executable_instruction_count(func, condition);
    let b = executable_instruction_count(func, update);
    if a > MAX_CONDITIONAL_INNER_INSTRUCTIONS || b > MAX_CONDITIONAL_INNER_INSTRUCTIONS - a {
        return false;
    }
    if !check_selects_update(func, n, condition, update) {
        return false;
    }
    if let Some(count) = n.outer_trip_count {
        if count < 2 {
            return false;
        }
    }
    inner_results_have_no_extra_liveouts(func, inner, n.accumulator, n.inner_exit)
}

/// Finds the nest with a condition around an inner loop.
pub fn match_conditional(
    func: &Function,
    dom: &Dominators,
    list: &Vec<NaturalLoop>,
    at: usize,
) -> (r: Option<ConditionalNest>)
    requires
        func@.wf(),
        dom.of(func@),
        at < list.len(),
        forall|k: int| 0 <= k < list.len() ==> (#[trigger] list@[k])@.within(func@.blocks.len()),
    ensures
        match r {
            Some(c) => conditional_fits(func@, loops::loops_view(list@), list@[at as int]@, c)
                && nest_in(func@, c.nest) && func@.has_block(c.condition) && func@.has_block(
                c.update,
            ),
            None => true,
        },
        forall|c: ConditionalNest| #[trigger]
            conditional_fits(func@, loops::loops_view(list@), list@[at as int]@, c) ==> r == Some(
                c,
            ),
{
    let inner = &list[at];
    assert(list@[at as int]@.within(func@.blocks.len()));
    let ghost views = loops::loops_view(list@);
    assert forall|c: ConditionalNest| #[trigger]
        conditional_fits(func@, views, inner@, c) implies frame_fits(
        func@,
        views,
        inner@,
        c.nest,
    ) by {}
    let n = match_frame(func, list, inner)?;
    let condition = loop_inside_target(func, inner)?;
    proof {
        query::lemma_terminator_wf(func@, inner.header);
    }
    let update = find_update(func, condition, n.inner_latch)?;
    if !check_diamond(func, inner, n, condition, update) {
        return None;
    }
    let loads = vec![condition, update];
    assert(loads@ =~= seq![condition, update]);
    if !check_values(func, dom, n, &loads) || !check_setup(func, dom, n) {
        return None;
    }
    let mapped = mapped_in_loop(func, n);
    let more = mapped_in_update(func, n, condition);
    if !block_operands_cloneable(func, dom, condition, n.outer_preheader, &mapped, false)
        || !check_condition_cloneable(func, dom, condition, n.outer_preheader, &more)
        || !block_operands_cloneable(func, dom, update, n.outer_preheader, &more, false) {
        return None;
    }
    Some(ConditionalNest { nest: n, condition, update })
}

} // verus!
