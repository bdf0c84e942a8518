//! The search for repeated overwrites.
use vstd::prelude::*;

use crate::cfg::{ControlFlowGraph, Dominators};
use crate::edit::inst_operands;
use crate::ir;
use crate::ir::{
    BinaryOp, BlockId, CompareOp, Function, Inst, InstKind, Terminator, Type, ValueId, ValueKind,
};
use crate::loops;
use crate::loops::{
    analyze_const_i32_trip_count, analyze_i32_induction, order_by_size, InductionVariable, LoopInfo,
    NaturalLoop,
};
use crate::memory::{pointer_path, pointer_root, same_memory_root, stable_memory_root};
use crate::pass::recursive_inline::analyze::resolve_target;
use crate::pass::repeated_overwrite::model;
use crate::pass::repeated_overwrite::model::{
    Candidate, CountedLoop, MatrixCopy, Place, MAX_BLOCKS, MAX_INSTRUCTIONS, MAX_POINTER_DEPTH,
    MAX_VALUES,
};
use crate::patterns;
use crate::patterns::{
    as_binary, as_branch, as_compare, as_load, collect_phi_results, contains_value, is_defined_in,
};
use crate::query;
use crate::query::dominates_in;
use crate::util;
use crate::util::const_i32;

verus! {

// ---------------------------------------------------------------------------
// The caller
// ---------------------------------------------------------------------------

fn exceeds_budget(func: &Function) -> (r: bool)
    ensures
        r == model::is_large(func@),
{
    if func.blocks.len() > MAX_BLOCKS || func.values.len() > MAX_VALUES {
        return true;
    }
    let n = func.blocks.len();
    let mut total: u128 = 0;
    for k in 0..n
        invariant
            n == func@.blocks.len(),
            n == func.blocks.len(),
            n <= MAX_BLOCKS,
            total == model::inst_total(func@, k as int),
            total <= k * usize::MAX,
    {
        assert(func.blocks@[k as int]@ == func@.blocks[k as int]);
        total = total + func.blocks[k].insts.len() as u128;
    }
    total > MAX_INSTRUCTIONS as u128
}

fn counted_outer_loop(func: &Function, l: &NaturalLoop) -> (r: Option<CountedLoop>)
    requires
        func@.has_block(l.header),
    ensures
        r == model::counted(func@, l@),
{
    let (cond, t, e) = as_branch(func, l.header)?;
    if !l.contains(t) || l.contains(e) || !l.exits_only_by(l.header, e) {
        return None;
    }
    let (op, lhs, _) = as_compare(func, cond)?;
    if op != CompareOp::Lt {
        return None;
    }
    let induction = analyze_i32_induction(func, l, lhs)?;
    let trip_count = analyze_const_i32_trip_count(func, l, induction)?;
    Some(CountedLoop { condition: cond, induction, trip_count })
}

fn inst_uses_for_control(inst: &Inst, counter: ValueId, cond: ValueId, next: ValueId) -> (r: bool)
    ensures
        r == model::uses_for_control(inst@, counter, cond, next),
{
    let list = inst_operands(&inst.kind);
    if !contains_value(&list, counter) {
        return true;
    }
    match inst.kind {
        InstKind::Phi { .. } => false,
        _ => match inst.result {
            Some(v) => v == cond || v == next,
            None => false,
        },
    }
}

#[verifier::loop_isolation(false)]
fn counter_is_control_only(func: &Function, counter: ValueId, cond: ValueId, next: ValueId) -> (r:
    bool)
    ensures
        r == model::is_control_only(func@, counter, cond, next),
{
    let ghost f = func@;
    let n = func.blocks.len();
    for x in 0..n
        invariant
            n == f.blocks.len(),
            forall|b: BlockId, i: int|
                b.0 < x && f.has_inst(b, i) ==> model::uses_for_control(
                    #[trigger] f.inst(b, i),
                    counter,
                    cond,
                    next,
                ),
            forall|b: BlockId|
                b.0 < x ==> #[trigger] f.terminator(b) != Some(Terminator::Return(Some(counter))),
    {
        let ghost b = BlockId(x);
        assert(f.has_block(b));
        let m = func.blocks[x].insts.len();
        for i in 0..m
            invariant
                m == f.block(b).insts.len(),
                forall|j: int|
                    0 <= j < i ==> model::uses_for_control(
                        #[trigger] f.inst(b, j),
                        counter,
                        cond,
                        next,
                    ),
        {
            let inst = &func.blocks[x].insts[i];
            assert(inst@ == f.inst(b, i as int));
            if !inst_uses_for_control(inst, counter, cond, next) {
                assert(!model::uses_for_control(f.inst(b, i as int), counter, cond, next));
                return false;
            }
        }
        assert(func.blocks@[x as int]@ == f.block(b));
        if let Some(Terminator::Return(Some(v))) = func.blocks[x].terminator {
            if v == counter {
                assert(f.terminator(b) == Some(Terminator::Return(Some(counter))));
                return false;
            }
        }
    }
    true
}

fn is_wanted_inst(inst: &Inst, calls: bool) -> (r: bool)
    ensures
        r == model::is_wanted(inst@, calls),
{
    match inst.kind {
        InstKind::Call { .. } => calls,
        InstKind::Store { .. } => !calls,
        _ => false,
    }
}

#[verifier::loop_isolation(false)]
fn collect_places(func: &Function, l: &NaturalLoop, calls: bool) -> (r: Vec<Place>)
    requires
        l@.within(func@.blocks.len()),
    ensures
        r@ == model::places_of(func@, l@, calls),
        forall|k: int|
            0 <= k < r.len() ==> func@.has_inst((#[trigger] r@[k]).block, r@[k].index as int),
{
    let ghost f = func@;
    let n = l.blocks.len();
    let mut r: Vec<Place> = Vec::new();
    for x in 0..n
        invariant
            r@ == model::places_upto(f, l@.blocks, calls, x as int),
            forall|k: int|
                0 <= k < r.len() ==> f.has_inst((#[trigger] r@[k]).block, r@[k].index as int),
    {
        let b = l.blocks[x];
        assert(l@.blocks[x as int].0 < f.blocks.len());
        let m = func.blocks[b.0].insts.len();
        let ghost before = r@;
        assert(before + model::places_below(f, b, calls, 0) =~= before);
        for i in 0..m
            invariant
                m == f.block(b).insts.len(),
                r@ == before + model::places_below(f, b, calls, i as int),
                forall|k: int|
                    0 <= k < r.len() ==> f.has_inst((#[trigger] r@[k]).block, r@[k].index as int),
        {
            let inst = &func.blocks[b.0].insts[i];
            assert(inst@ == f.inst(b, i as int));
            if is_wanted_inst(inst, calls) {
                let place = Place { block: b, index: i };
                let ghost own = model::places_below(f, b, calls, i as int);
                r.push(place);
                assert(before + own.push(place) =~= (before + own).push(place));
            }
        }
    }
    r
}

fn bound_of(func: &Function, l: &NaturalLoop, counter: ValueId) -> (r: Option<ValueId>)
    ensures
        r == model::less_than_bound(func@, l@, counter),
{
    let (cond, t, e) = as_branch(func, l.header)?;
    if !l.contains(t) || l.contains(e) {
        return None;
    }
    let (op, lhs, rhs) = as_compare(func, cond)?;
    if op == CompareOp::Lt && lhs == counter {
        Some(rhs)
    } else {
        None
    }
}

fn is_constant(func: &Function, v: ValueId, c: i32) -> (r: bool)
    ensures
        r == (util::const_i32_of(func@, v) == Some(c)),
{
    match const_i32(func, v) {
        Some(x) => x == c,
        None => false,
    }
}

fn zero_based_loop(func: &Function, list: &Vec<NaturalLoop>, phi: ValueId) -> (r: Option<
    (usize, ValueId),
>)
    ensures
        match r {
            Some((k, bound)) => k < list.len() && model::zero_based_from(
                func@,
                loops::loops_view(list@),
                phi,
                0,
            ) == Some((k as int, bound)),
            None => model::zero_based_from(func@, loops::loops_view(list@), phi, 0) is None,
        },
{
    let ghost views = loops::loops_view(list@);
    let n = list.len();
    for k in 0..n
        invariant
            n == list.len(),
            views == loops::loops_view(list@),
            model::zero_based_from(func@, views, phi, 0) == model::zero_based_from(
                func@,
                views,
                phi,
                k as int,
            ),
    {
        assert(views[k as int] == list@[k as int]@);
        if let Some(iv) = analyze_i32_induction(func, &list[k], phi) {
            if iv.step == 1 && is_constant(func, iv.initial, 0) {
                if let Some(bound) = bound_of(func, &list[k], phi) {
                    return Some((k, bound));
                }
            }
        }
    }
    None
}

fn loop_covers(a: &NaturalLoop, b: &NaturalLoop) -> (r: bool)
    ensures
        r == model::covers(a@, b@),
{
    let n = b.blocks.len();
    for k in 0..n
        invariant
            n == b.blocks.len(),
            forall|j: int| 0 <= j < k ==> a@.has(#[trigger] b@.blocks[j]),
    {
        if !a.contains(b.blocks[k]) {
            assert(!a@.has(b@.blocks[k as int]));
            return false;
        }
    }
    true
}

fn check_rectangle(
    func: &Function,
    dom: &Dominators,
    outer: &NaturalLoop,
    row: &NaturalLoop,
    column: &NaturalLoop,
    store_block: BlockId,
    call_block: BlockId,
) -> (r: bool)
    requires
        dom.of(func@),
        row@.within(func@.blocks.len()),
        column@.within(func@.blocks.len()),
        func@.has_block(call_block),
    ensures
        r == model::rectangle_fits(func@, outer@, row@, column@, store_block, call_block),
{
    let row_latch = match row.unique_latch() {
        Some(b) => b,
        None => return false,
    };
    assert(row@.latches[0].0 < func@.blocks.len());
    if !loop_covers(outer, row) || !loop_covers(row, column) || !column.contains(store_block) {
        return false;
    }
    match column.unique_latch() {
        Some(b) => if b != store_block {
            return false;
        },
        None => return false,
    }
    row.exits_only_by(row.header, call_block) && column.exits_only_by(column.header, row_latch)
        && dominates_in(func, dom, row.header, column.header) && dominates_in(
        func,
        dom,
        column.header,
        row_latch,
    ) && dominates_in(func, dom, row.header, call_block)
}

fn is_bulk_inst(inst: &Inst) -> (r: bool)
    ensures
        r == model::is_bulk(inst@),
{
    match inst.kind {
        InstKind::MemZero { .. } => true,
        InstKind::MemCopy { .. } => true,
        _ => false,
    }
}

#[verifier::loop_isolation(false)]
fn loop_has_bulk(func: &Function, l: &NaturalLoop) -> (r: bool)
    requires
        l@.within(func@.blocks.len()),
    ensures
        r == model::has_bulk(func@, l@),
{
    let ghost f = func@;
    let n = l.blocks.len();
    for x in 0..n
        invariant
            forall|j: int, i: int|
                0 <= j < x && f.has_inst(l@.blocks[j], i) ==> !model::is_bulk(
                    #[trigger] f.inst(l@.blocks[j], i),
                ),
    {
        let b = l.blocks[x];
        assert(l@.blocks[x as int].0 < f.blocks.len());
        let m = func.blocks[b.0].insts.len();
        for i in 0..m
            invariant
                m == f.block(b).insts.len(),
                forall|j: int| 0 <= j < i ==> !model::is_bulk(#[trigger] f.inst(b, j)),
        {
            let inst = &func.blocks[b.0].insts[i];
            assert(inst@ == f.inst(b, i as int));
            if is_bulk_inst(inst) {
                assert(l@.has(b));
                return true;
            }
        }
    }
    assert forall|b: BlockId, i: int| l@.has(b) && f.has_inst(b, i) implies !model::is_bulk(
        #[trigger] f.inst(b, i),
    ) by {
        let j = choose|j: int| 0 <= j < l@.blocks.len() && l@.blocks[j] == b;
        assert(!model::is_bulk(f.inst(l@.blocks[j], i)));
    }
    false
}

fn inst_loads_from(func: &Function, inst: &Inst, root: ValueId) -> (r: bool)
    ensures
        r == model::loads_from(func@, inst@, root),
{
    match inst.kind {
        InstKind::Load { ptr } => match pointer_root(func, ptr, MAX_POINTER_DEPTH) {
            Some(x) => same_memory_root(func, x, root),
            None => false,
        },
        _ => true,
    }
}

#[verifier::loop_isolation(false)]
fn loads_only_from(func: &Function, l: &NaturalLoop, root: ValueId) -> (r: bool)
    requires
        l@.within(func@.blocks.len()),
    ensures
        r == model::all_load_from(func@, l@, root),
{
    let ghost f = func@;
    let n = l.blocks.len();
    for x in 0..n
        invariant
            forall|j: int, i: int|
                0 <= j < x && f.has_inst(l@.blocks[j], i) ==> model::loads_from(
                    f,
                    #[trigger] f.inst(l@.blocks[j], i),
                    root,
                ),
    {
        let b = l.blocks[x];
        assert(l@.blocks[x as int].0 < f.blocks.len());
        let m = func.blocks[b.0].insts.len();
        for i in 0..m
            invariant
                m == f.block(b).insts.len(),
                forall|j: int| 0 <= j < i ==> model::loads_from(f, #[trigger] f.inst(b, j), root),
        {
            let inst = &func.blocks[b.0].insts[i];
            assert(inst@ == f.inst(b, i as int));
            if !inst_loads_from(func, inst, root) {
                assert(l@.has(b));
                assert(!model::loads_from(f, f.inst(b, i as int), root));
                return false;
            }
        }
    }
    assert forall|b: BlockId, i: int| l@.has(b) && f.has_inst(b, i) implies model::loads_from(
        f,
        #[trigger] f.inst(b, i),
        root,
    ) by {
        let j = choose|j: int| 0 <= j < l@.blocks.len() && l@.blocks[j] == b;
        assert(model::loads_from(f, f.inst(l@.blocks[j], i), root));
    }
    true
}

fn same_values(a: &Vec<ValueId>, b: &Vec<ValueId>) -> (r: bool)
    ensures
        r == (a@ == b@),
{
    if a.len() != b.len() {
        return false;
    }
    let n = a.len();
    for k in 0..n
        invariant
            n == a.len(),
            n == b.len(),
            forall|j: int| 0 <= j < k ==> #[trigger] a@[j] == b@[j],
    {
        if a[k] != b[k] {
            assert(a@[k as int] != b@[k as int]);
            return false;
        }
    }
    assert(a@ =~= b@);
    true
}

fn match_copy(
    func: &Function,
    dom: &Dominators,
    outer: &NaturalLoop,
    list: &Vec<NaturalLoop>,
    call_block: BlockId,
    store_block: BlockId,
    destination: ValueId,
    value: ValueId,
) -> (r: Option<MatrixCopy>)
    requires
        dom.of(func@),
        outer@.within(func@.blocks.len()),
        forall|k: int| 0 <= k < list.len() ==> (#[trigger] list@[k])@.within(func@.blocks.len()),
        func@.has_block(call_block),
    ensures
        r == model::copy_by(
            func@,
            outer@,
            loops::loops_view(list@),
            call_block,
            store_block,
            destination,
            value,
        ),
{
    let source = as_load(func, value)?;
    let d = pointer_path(func, destination, MAX_POINTER_DEPTH)?;
    let s = pointer_path(func, source, MAX_POINTER_DEPTH)?;
    if same_memory_root(func, d.root, s.root) || d.indices.len() != 2 || !same_values(
        &s.indices,
        &d.indices,
    ) || !stable_memory_root(func, d.root, &outer.blocks) || !stable_memory_root(
        func,
        s.root,
        &outer.blocks,
    ) {
        return None;
    }
    let (k, bound) = zero_based_loop(func, list, d.indices[0])?;
    let (c, bound2) = zero_based_loop(func, list, d.indices[1])?;
    assert(loops::loops_view(list@)[k as int] == list@[k as int]@);
    assert(loops::loops_view(list@)[c as int] == list@[c as int]@);
    if bound != bound2 || !check_rectangle(
        func,
        dom,
        outer,
        &list[k],
        &list[c],
        store_block,
        call_block,
    ) || !loads_only_from(func, outer, s.root) {
        return None;
    }
    Some(MatrixCopy { destination_root: d.root, source_root: s.root, bound })
}

fn complete_matrix_copy(
    func: &Function,
    dom: &Dominators,
    outer: &NaturalLoop,
    list: &Vec<NaturalLoop>,
    call_block: BlockId,
) -> (r: Option<MatrixCopy>)
    requires
        dom.of(func@),
        outer@.within(func@.blocks.len()),
        forall|k: int| 0 <= k < list.len() ==> (#[trigger] list@[k])@.within(func@.blocks.len()),
        func@.has_block(call_block),
    ensures
        r == model::complete_copy(func@, outer@, loops::loops_view(list@), call_block),
{
    if loop_has_bulk(func, outer) {
        return None;
    }
    let stores = collect_places(func, outer, false);
    if stores.len() != 1 {
        return None;
    }
    let place = stores[0];
    assert(func@.has_inst(stores@[0].block, stores@[0].index as int));
    let inst = &func.blocks[place.block.0].insts[place.index];
    assert(inst@ == func@.inst(place.block, place.index as int));
    match inst.kind {
        InstKind::Store { ptr, value } => match_copy(
            func,
            dom,
            outer,
            list,
            call_block,
            place.block,
            ptr,
            value,
        ),
        _ => None,
    }
}

fn indices_are_zero(func: &Function, indices: &Vec<ValueId>) -> (r: bool)
    ensures
        r == model::all_zero(func@, indices@),
{
    let n = indices.len();
    for k in 0..n
        invariant
            n == indices.len(),
            forall|j: int|
                0 <= j < k ==> util::const_i32_of(func@, #[trigger] indices@[j]) == Some(0i32),
    {
        if !is_constant(func, indices[k], 0) {
            assert(util::const_i32_of(func@, indices@[k as int]) != Some(0i32));
            return false;
        }
    }
    true
}

fn arg_points_into(func: &Function, arg: ValueId, root: ValueId) -> (r: bool)
    ensures
        r == model::points_into(func@, arg, root),
{
    match pointer_path(func, arg, MAX_POINTER_DEPTH) {
        Some(p) => same_memory_root(func, p.root, root) && indices_are_zero(func, &p.indices),
        None => false,
    }
}

fn find_destination(func: &Function, args: &Vec<ValueId>, root: ValueId) -> (r: Option<usize>)
    ensures
        match r {
            Some(k) => model::destination_from(func@, args@, root, 0) == Some(k as int),
            None => model::destination_from(func@, args@, root, 0) is None,
        },
{
    let n = args.len();
    for k in 0..n
        invariant
            n == args.len(),
            model::destination_from(func@, args@, root, 0) == model::destination_from(
                func@,
                args@,
                root,
                k as int,
            ),
    {
        if arg_points_into(func, args[k], root) {
            return Some(k);
        }
    }
    None
}

fn find_value(args: &Vec<ValueId>, v: ValueId) -> (r: Option<usize>)
    ensures
        match r {
            Some(k) => model::value_from(args@, v, 0) == Some(k as int),
            None => model::value_from(args@, v, 0) is None,
        },
{
    let n = args.len();
    for k in 0..n
        invariant
            n == args.len(),
            model::value_from(args@, v, 0) == model::value_from(args@, v, k as int),
    {
        if args[k] == v {
            return Some(k);
        }
    }
    None
}

fn has_pointer_type(func: &Function, v: ValueId) -> (r: bool)
    ensures
        r == model::is_pointer(func@, v),
{
    if v.0 >= func.values.len() {
        return false;
    }
    assert(func.values@[v.0 as int]@ == func@.value(v));
    match func.values[v.0].ty {
        Type::Ptr(_) => true,
        _ => false,
    }
}

#[verifier::loop_isolation(false)]
fn stable_call_arguments(func: &Function, outer: &NaturalLoop, args: &Vec<ValueId>, copy: MatrixCopy) -> (r:
    bool)
    ensures
        r == model::arguments_fit(func@, outer@, args@, copy),
{
    let ghost f = func@;
    let n = args.len();
    let mut count: usize = 0;
    for k in 0..n
        invariant
            forall|j: int|
                0 <= j < k ==> !patterns::defined_in(f, #[trigger] args@[j], outer@.blocks)
                    && model::argument_fits(f, outer@, args@[j], copy.destination_root),
            count == model::destinations(f, args@, copy.destination_root, k as int),
            count <= k,
    {
        let arg = args[k];
        if is_defined_in(func, arg, &outer.blocks) {
            assert(patterns::defined_in(f, args@[k as int], outer@.blocks));
            return false;
        }
        if has_pointer_type(func, arg) {
            match pointer_path(func, arg, MAX_POINTER_DEPTH) {
                Some(p) => {
                    if same_memory_root(func, p.root, copy.destination_root) {
                        if !indices_are_zero(func, &p.indices) {
                            assert(!model::argument_fits(
                                f,
                                outer@,
                                args@[k as int],
                                copy.destination_root,
                            ));
                            return false;
                        }
                        count = count + 1;
                    } else if !stable_memory_root(func, p.root, &outer.blocks) {
                        assert(!model::argument_fits(
                            f,
                            outer@,
                            args@[k as int],
                            copy.destination_root,
                        ));
                        return false;
                    }
                },
                None => {
                    assert(!model::argument_fits(
                        f,
                        outer@,
                        args@[k as int],
                        copy.destination_root,
                    ));
                    return false;
                },
            }
        }
    }
    count == 1 && !same_memory_root(func, copy.source_root, copy.destination_root)
        && stable_memory_root(func, copy.destination_root, &outer.blocks) && stable_memory_root(
        func,
        copy.source_root,
        &outer.blocks,
    )
}

// ---------------------------------------------------------------------------
// The callee
// ---------------------------------------------------------------------------

fn plus_one_source(func: &Function, v: ValueId) -> (r: Option<ValueId>)
    ensures
        r == model::one_less(func@, v),
{
    let (op, lhs, rhs) = as_binary(func, v)?;
    if op != BinaryOp::Iadd {
        None
    } else if is_constant(func, rhs, 1) {
        Some(lhs)
    } else if is_constant(func, lhs, 1) {
        Some(rhs)
    } else {
        None
    }
}

fn behind_test(func: &Function, dom: &Dominators, l: &NaturalLoop, b: BlockId) -> (r: bool)
    requires
        func@.wf(),
        dom.of(func@),
        func@.has_block(b),
        func@.has_block(l.header),
    ensures
        r == model::is_behind_test(func@, l@, b),
{
    if !l.contains(b) || b == l.header {
        return false;
    }
    proof {
        query::lemma_terminator_wf(func@, l.header);
    }
    match as_branch(func, l.header) {
        Some((_, taken, _)) => dominates_in(func, dom, taken, b),
        None => false,
    }
}

fn find_counting(
    func: &Function,
    dom: &Dominators,
    l: &NaturalLoop,
    index: ValueId,
    bound: ValueId,
    access: BlockId,
) -> (r: Option<InductionVariable>)
    requires
        func@.wf(),
        dom.of(func@),
        func@.has_block(access),
        func@.has_block(l.header),
    ensures
        r == model::counts_to(func@, l@, index, bound, access),
{
    let iv = analyze_i32_induction(func, l, index)?;
    if iv.step != 1 || !behind_test(func, dom, l, access) {
        return None;
    }
    match bound_of(func, l, index) {
        Some(b) => if b == bound {
            Some(iv)
        } else {
            None
        },
        None => None,
    }
}

#[verifier::loop_isolation(false)]
fn loop_has_parent(list: &Vec<NaturalLoop>, l: &NaturalLoop) -> (r: bool)
    ensures
        r == model::has_parent(loops::loops_view(list@), l@),
{
    let ghost views = loops::loops_view(list@);
    let n = list.len();
    for k in 0..n
        invariant
            n == views.len(),
            forall|j: int|
                0 <= j < k ==> !(model::covers(#[trigger] views[j], l@) && views[j].blocks.len()
                    > l@.blocks.len()),
    {
        assert(views[k as int] == list@[k as int]@);
        if loop_covers(&list[k], l) && list[k].blocks.len() > l.blocks.len() {
            return true;
        }
    }
    false
}

fn nonnegative_constant(func: &Function, v: ValueId) -> (r: bool)
    ensures
        r == model::is_nonnegative(func@, v),
{
    match const_i32(func, v) {
        Some(c) => c >= 0,
        None => false,
    }
}

fn index_within_bound(
    func: &Function,
    dom: &Dominators,
    list: &Vec<NaturalLoop>,
    index: ValueId,
    bound: ValueId,
    access: BlockId,
    fuel: usize,
) -> (r: bool)
    requires
        func@.wf(),
        dom.of(func@),
        func@.has_block(access),
        forall|k: int| 0 <= k < list.len() ==> func@.has_block((#[trigger] list@[k]).header),
    ensures
        r == model::kept_by(
            func@,
            loops::loops_view(list@),
            index,
            bound,
            access,
            fuel as nat,
            0,
        ),
    decreases fuel,
{
    let ghost views = loops::loops_view(list@);
    let n = list.len();
    for k in 0..n
        invariant
            func@.wf(),
            dom.of(func@),
            func@.has_block(access),
            forall|k: int| 0 <= k < list.len() ==> func@.has_block((#[trigger] list@[k]).header),
            n == list.len(),
            views == loops::loops_view(list@),
            model::kept_by(func@, views, index, bound, access, fuel as nat, 0) == model::kept_by(
                func@,
                views,
                index,
                bound,
                access,
                fuel as nat,
                k as int,
            ),
    {
        assert(views[k as int] == list@[k as int]@);
        assert(func@.has_block(list@[k as int].header));
        if let Some(iv) = find_counting(func, dom, &list[k], index, bound, access) {
            if nonnegative_constant(func, iv.initial) {
                return true;
            }
            if let Some(parent) = plus_one_source(func, iv.initial) {
                if fuel > 0 && loop_has_parent(list, &list[k]) && index_within_bound(
                    func,
                    dom,
                    list,
                    parent,
                    bound,
                    list[k].header,
                    fuel - 1,
                ) {
                    return true;
                }
            }
        }
    }
    false
}

fn check_access(
    func: &Function,
    dom: &Dominators,
    list: &Vec<NaturalLoop>,
    destination: ValueId,
    bound: ValueId,
    b: BlockId,
    inst: &Inst,
) -> (r: bool)
    requires
        func@.wf(),
        dom.of(func@),
        func@.has_block(b),
        forall|k: int| 0 <= k < list.len() ==> func@.has_block((#[trigger] list@[k]).header),
    ensures
        r == model::access_fits(func@, loops::loops_view(list@), destination, bound, b, inst@),
{
    let (ptr, writes) = match inst.kind {
        InstKind::Load { ptr } => (ptr, false),
        InstKind::Store { ptr, .. } => (ptr, true),
        InstKind::Call { .. } => return false,
        InstKind::MemZero { .. } => return false,
        InstKind::MemCopy { .. } => return false,
        _ => return true,
    };
    assert(func.values.len() == func@.values.len());
    let path = match pointer_path(func, ptr, MAX_POINTER_DEPTH) {
        Some(p) => p,
        None => return false,
    };
    if !contains_value(&func.params, path.root) {
        return false;
    }
    if writes && path.root != destination {
        return false;
    }
    if path.root != destination {
        return true;
    }
    let fuel = func.values.len();
    path.indices.len() == 2 && index_within_bound(func, dom, list, path.indices[0], bound, b, fuel)
        && index_within_bound(func, dom, list, path.indices[1], bound, b, fuel)
}

fn refers_to_global(func: &Function) -> (r: bool)
    ensures
        r == model::has_global(func@),
{
    let n = func.values.len();
    for v in 0..n
        invariant
            n == func@.values.len(),
            n == func.values.len(),
            forall|j: int| 0 <= j < v ==> !((#[trigger] func@.values[j]).kind is Global),
    {
        assert(func.values@[v as int]@ == func@.values[v as int]);
        if let ValueKind::Global(_) = func.values[v].kind {
            assert(func@.values[v as int].kind is Global);
            return true;
        }
    }
    false
}

#[verifier::loop_isolation(false)]
fn check_accesses(
    func: &Function,
    dom: &Dominators,
    list: &Vec<NaturalLoop>,
    destination: ValueId,
    bound: ValueId,
) -> (r: bool)
    requires
        func@.wf(),
        dom.of(func@),
        forall|k: int| 0 <= k < list.len() ==> func@.has_block((#[trigger] list@[k]).header),
    ensures
        r == ((forall|b: BlockId, i: int|
            func@.has_inst(b, i) ==> model::access_fits(
                func@,
                loops::loops_view(list@),
                destination,
                bound,
                b,
                #[trigger] func@.inst(b, i),
            )) && (exists|b: BlockId, i: int|
            func@.has_inst(b, i) && (#[trigger] func@.inst(b, i)).kind is Store)),
{
    let ghost f = func@;
    let ghost views = loops::loops_view(list@);
    let n = func.blocks.len();
    let mut stores = false;
    for x in 0..n
        invariant
            n == f.blocks.len(),
            forall|b: BlockId, i: int|
                b.0 < x && f.has_inst(b, i) ==> model::access_fits(
                    f,
                    views,
                    destination,
                    bound,
                    b,
                    #[trigger] f.inst(b, i),
                ),
            stores ==> exists|b: BlockId, i: int|
                f.has_inst(b, i) && (#[trigger] f.inst(b, i)).kind is Store,
            !stores ==> forall|b: BlockId, i: int|
                b.0 < x && f.has_inst(b, i) ==> !((#[trigger] f.inst(b, i)).kind is Store),
    {
        let b = BlockId(x);
        let m = func.blocks[x].insts.len();
        for i in 0..m
            invariant
                m == f.block(b).insts.len(),
                forall|j: int|
                    0 <= j < i ==> model::access_fits(
                        f,
                        views,
                        destination,
                        bound,
                        b,
                        #[trigger] f.inst(b, j),
                    ),
                stores ==> exists|b: BlockId, i: int|
                    f.has_inst(b, i) && (#[trigger] f.inst(b, i)).kind is Store,
                !stores ==> forall|b: BlockId, i: int|
                    b.0 < x && f.has_inst(b, i) ==> !((#[trigger] f.inst(b, i)).kind is Store),
                !stores ==> forall|j: int|
                    0 <= j < i ==> !((#[trigger] f.inst(b, j)).kind is Store),
        {
            let inst = &func.blocks[x].insts[i];
            assert(inst@ == f.inst(b, i as int));
            assert(f.has_inst(b, i as int));
            if !check_access(func, dom, list, destination, bound, b, inst) {
                assert(!model::access_fits(f, views, destination, bound, b, f.inst(b, i as int)));
                return false;
            }
            if let InstKind::Store { .. } = inst.kind {
                stores = true;
            }
        }
    }
    stores
}

fn callee_fits_complete_overwrite(func: &Function, destination_param: usize, bound_param: usize) -> (r:
    bool)
    requires
        func@.wf(),
    ensures
        r == model::callee_fits(func@, destination_param as int, bound_param as int),
{
    if exceeds_budget(func) || !func.ret.same(&Type::Void) || destination_param
        >= func.params.len() || bound_param >= func.params.len() {
        return false;
    }
    let destination = func.params[destination_param];
    let bound = func.params[bound_param];
    assert(func@.has_value(func@.params[destination_param as int]));
    assert(func@.has_value(func@.params[bound_param as int]));
    assert(func.values@[bound.0 as int]@ == func@.value(bound));
    if !has_pointer_type(func, destination) || !func.values[bound.0].ty.same(&Type::I32)
        || refers_to_global(func) {
        return false;
    }
    let graph = ControlFlowGraph::new(func);
    let dom = Dominators::new(func, &graph);
    let info = LoopInfo::new(func, &graph, &dom);
    let list = info.loops();
    assert(func.blocks.len() == func@.blocks.len());
    assert forall|k: int| 0 <= k < list.len() implies func@.has_block(
        (#[trigger] list@[k]).header,
    ) by {
        assert(loops::loops_of(func@).len() == list.len());
        assert(loops::loops_of(func@)[k] == list@[k]@);
        loops::lemma_listed_loop(func@, k);
    }
    check_accesses(func, &dom, list, destination, bound)
}

// ---------------------------------------------------------------------------
// The candidate
// ---------------------------------------------------------------------------

fn check_call(
    func: &Function,
    funcs: &Vec<Function>,
    name: &String,
    args: &Vec<ValueId>,
    outer: &NaturalLoop,
    copy: MatrixCopy,
) -> (r: bool)
    requires
        forall|k: int| 0 <= k < funcs.len() ==> (#[trigger] funcs@[k])@.wf(),
    ensures
        r == model::call_fits(func@, ir::funcs_view(funcs@), name@, args@, outer@, copy),
{
    let id = match resolve_target(funcs, name) {
        Some(id) => id,
        None => return false,
    };
    assert(ir::funcs_view(funcs@)[id.0 as int] == funcs@[id.0 as int]@);
    let d = match find_destination(func, args, copy.destination_root) {
        Some(k) => k,
        None => return false,
    };
    let b = match find_value(args, copy.bound) {
        Some(k) => k,
        None => return false,
    };
    stable_call_arguments(func, outer, args, copy) && callee_fits_complete_overwrite(
        &funcs[id.0],
        d,
        b,
    )
}

fn check_overwrites(
    func: &Function,
    funcs: &Vec<Function>,
    dom: &Dominators,
    list: &Vec<NaturalLoop>,
    outer: &NaturalLoop,
    latch: BlockId,
    c: CountedLoop,
) -> (r: bool)
    requires
        func@.wf(),
        dom.of(func@),
        outer@.within(func@.blocks.len()),
        forall|k: int| 0 <= k < list.len() ==> (#[trigger] list@[k])@.within(func@.blocks.len()),
        forall|k: int| 0 <= k < funcs.len() ==> (#[trigger] funcs@[k])@.wf(),
    ensures
        r == model::overwrites(
            func@,
            ir::funcs_view(funcs@),
            loops::loops_view(list@),
            outer@,
            latch,
            c,
        ),
{
    if c.trip_count < 2 {
        return false;
    }
    let counter = c.induction.phi;
    let phis = collect_phi_results(func, outer.header);
    if phis.len() != 1 || phis[0] != counter {
        assert(seq![counter].len() == 1 && seq![counter][0] == counter);
        return false;
    }
    assert(phis@ =~= seq![counter]);
    if !counter_is_control_only(func, counter, c.condition, c.induction.next) {
        return false;
    }
    let calls = collect_places(func, outer, true);
    if calls.len() != 1 {
        return false;
    }
    let place = calls[0];
    assert(func@.has_inst(calls@[0].block, calls@[0].index as int));
    let inst = &func.blocks[place.block.0].insts[place.index];
    assert(inst@ == func@.inst(place.block, place.index as int));
    match &inst.kind {
        InstKind::Call { name, args } => {
            if inst.result.is_some() || place.block != latch {
                return false;
            }
            match complete_matrix_copy(func, dom, outer, list, place.block) {
                Some(copy) => check_call(func, funcs, name, args, outer, copy),
                None => false,
            }
        },
        _ => false,
    }
}

fn find_last_value(func: &Function, c: CountedLoop) -> (r: Option<i32>)
    requires
        c.trip_count >= 1,
    ensures
        r == model::last_value(func@, c),
{
    let initial = const_i32(func, c.induction.initial)?;
    let (s, n) = (c.induction.step as i128, (c.trip_count - 1) as i128);
    assert(-0x8000_0000 * 0xffff_ffff <= s * n <= 0x8000_0000 * 0xffff_ffff) by (nonlinear_arith)
        requires
            -0x8000_0000 <= s <= 0x7fff_ffff,
            0 <= n <= 0xffff_ffff,
    ;
    let last = initial as i128 + s * n;
    if last >= i32::MIN as i128 && last <= i32::MAX as i128 {
        Some(last as i32)
    } else {
        None
    }
}

fn try_loop(
    func: &Function,
    funcs: &Vec<Function>,
    dom: &Dominators,
    list: &Vec<NaturalLoop>,
    outer: &NaturalLoop,
) -> (r: Option<Option<Candidate>>)
    requires
        func@.wf(),
        dom.of(func@),
        outer@.within(func@.blocks.len()),
        forall|k: int| 0 <= k < list.len() ==> (#[trigger] list@[k])@.within(func@.blocks.len()),
        forall|k: int| 0 <= k < funcs.len() ==> (#[trigger] funcs@[k])@.wf(),
    ensures
        r == model::loop_attempt(
            func@,
            ir::funcs_view(funcs@),
            loops::loops_view(list@),
            outer@,
        ),
{
    let entering = match outer.unique_entering_pred {
        Some(b) => b,
        None => return None,
    };
    let latch = match outer.unique_latch() {
        Some(b) => b,
        None => return None,
    };
    let c = match counted_outer_loop(func, outer) {
        Some(c) => c,
        None => return None,
    };
    if !check_overwrites(func, funcs, dom, list, outer, latch, c) {
        return None;
    }
    match find_last_value(func, c) {
        Some(last) => Some(
            Some(Candidate { counter: c.induction.phi, entering, final_initial: last }),
        ),
        None => Some(None),
    }
}

/// Finds the candidate of a function.
pub fn find_candidate(func: &Function, funcs: &Vec<Function>) -> (r: Option<Candidate>)
    requires
        func@.wf(),
        forall|k: int| 0 <= k < funcs.len() ==> (#[trigger] funcs@[k])@.wf(),
    ensures
        r == model::candidate_of(func@, ir::funcs_view(funcs@)),
{
    let ghost f = func@;
    let ghost all = ir::funcs_view(funcs@);
    if exceeds_budget(func) {
        return None;
    }
    let graph = ControlFlowGraph::new(func);
    let dom = Dominators::new(func, &graph);
    let info = LoopInfo::new(func, &graph, &dom);
    let list = info.loops();
    let order = order_by_size(list, false);
    let ghost views = loops::loops_of(f);
    assert forall|k: int| 0 <= k < list.len() implies (#[trigger] list@[k])@.within(
        f.blocks.len(),
    ) by {
        assert(views[k] == list@[k]@);
        loops::lemma_listed_loop(f, k);
    }
    let n = order.len();
    for k in 0..n
        invariant
            n == order.len(),
            func@ == f,
            f.wf(),
            dom.of(f),
            all == ir::funcs_view(funcs@),
            views == loops::loops_view(list@),
            order@ == loops::size_order(views, false),
            forall|j: int| 0 <= j < order.len() ==> #[trigger] order@[j] < list.len(),
            forall|k: int| 0 <= k < list.len() ==> (#[trigger] list@[k])@.within(f.blocks.len()),
            forall|k: int| 0 <= k < funcs.len() ==> (#[trigger] funcs@[k])@.wf(),
            model::candidate_of(f, all) == model::candidate_from(f, all, views, order@, k as int),
    {
        assert(views[order@[k as int] as int] == list@[order@[k as int] as int]@);
        if let Some(r) = try_loop(func, funcs, &dom, list, &list[order[k]]) {
            return r;
        }
    }
    None
}

} // verus!
