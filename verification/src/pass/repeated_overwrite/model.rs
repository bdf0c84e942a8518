//! What a repeated overwrite is, and why its last round is enough.
use vstd::prelude::*;

use crate::cfg;
use crate::edit;
use crate::ir::{
    BinaryOp, BlockId, CompareOp, Const, FuncView, Inst, InstView, KindView, ModuleView, Terminator,
    Type, ValueId, ValueKindView,
};
use crate::loops;
use crate::loops::{InductionVariable, LoopView};
use crate::memory;
use crate::pass::recursive_inline::analyze;
use crate::patterns;
use crate::util;
use crate::verify;

verus! {

pub const MAX_FUNCTIONS: usize = 4096;

pub const MAX_BLOCKS: usize = 1024;

pub const MAX_VALUES: usize = 8192;

pub const MAX_INSTRUCTIONS: usize = 32768;

pub const MAX_POINTER_DEPTH: usize = 64;

/// The counter of a loop, and the value it can start at.
#[derive(Clone, Copy, PartialEq, Eq, Structural)]
pub struct Candidate {
    pub counter: ValueId,
    pub entering: BlockId,
    pub final_initial: i32,
}

/// A copy of a square.
#[derive(Clone, Copy, PartialEq, Eq, Structural)]
pub struct MatrixCopy {
    pub destination_root: ValueId,
    pub source_root: ValueId,
    pub bound: ValueId,
}

/// A counted loop.
#[derive(Clone, Copy, PartialEq, Eq, Structural)]
pub struct CountedLoop {
    pub condition: ValueId,
    pub induction: InductionVariable,
    pub trip_count: u32,
}

/// A place of an instruction.
#[derive(Clone, Copy, PartialEq, Eq, Structural)]
pub struct Place {
    pub block: BlockId,
    pub index: usize,
}

// ---------------------------------------------------------------------------
// Mathematical model: the caller
// ---------------------------------------------------------------------------

/// The number of instructions in the first `n` blocks.
pub open spec fn inst_total(f: FuncView, n: int) -> nat
    decreases n,
{
    if n <= 0 {
        0
    } else {
        inst_total(f, n - 1) + f.blocks[n - 1].insts.len()
    }
}

/// The function is too large.
pub open spec fn is_large(f: FuncView) -> bool {
    f.blocks.len() > MAX_BLOCKS || f.values.len() > MAX_VALUES || inst_total(
        f,
        f.blocks.len() as int,
    ) > MAX_INSTRUCTIONS
}

/// The loop counts up to a constant in its header and leaves only there.
pub open spec fn counted(f: FuncView, l: LoopView) -> Option<CountedLoop> {
    match patterns::branch_of(f, l.header) {
        Some((cond, t, e)) => if !l.has(t) || l.has(e) || l.exit_edges != seq![(l.header, e)] {
            None
        } else {
            match patterns::compare_of(f, cond) {
                Some((CompareOp::Lt, lhs, _)) => match loops::induction_of(f, l, lhs) {
                    Some(iv) => match loops::trip_count_of(f, l, iv) {
                        Some(n) => Some(
                            CountedLoop { condition: cond, induction: iv, trip_count: n },
                        ),
                        None => None,
                    },
                    None => None,
                },
                _ => None,
            }
        },
        None => None,
    }
}

/// The instruction uses the counter only for the loop itself.
pub open spec fn uses_for_control(inst: InstView, counter: ValueId, cond: ValueId, next: ValueId) -> bool {
    edit::operands(inst.kind).contains(counter) ==> !(inst.kind is Phi) && (inst.result == Some(
        cond,
    ) || inst.result == Some(next))
}

/// The counter serves only the loop itself.
pub open spec fn is_control_only(f: FuncView, counter: ValueId, cond: ValueId, next: ValueId) -> bool {
    &&& forall|b: BlockId, i: int|
        f.has_inst(b, i) ==> uses_for_control(#[trigger] f.inst(b, i), counter, cond, next)
    &&& forall|b: BlockId|
        f.has_block(b) ==> #[trigger] f.terminator(b) != Some(Terminator::Return(Some(counter)))
}

/// The instruction is a store, or a call.
pub open spec fn is_wanted(inst: InstView, calls: bool) -> bool {
    if calls {
        inst.kind is Call
    } else {
        inst.kind is Store
    }
}

/// The stores, or the calls, among the first `n` instructions of a block.
pub open spec fn places_below(f: FuncView, b: BlockId, calls: bool, n: int) -> Seq<Place>
    decreases n,
{
    if n <= 0 {
        Seq::empty()
    } else {
        let before = places_below(f, b, calls, n - 1);
        if is_wanted(f.inst(b, n - 1), calls) {
            before.push(Place { block: b, index: (n - 1) as usize })
        } else {
            before
        }
    }
}

/// The stores, or the calls, in the first `n` blocks of a list.
pub open spec fn places_upto(f: FuncView, list: Seq<BlockId>, calls: bool, n: int) -> Seq<Place>
    decreases n,
{
    if n <= 0 {
        Seq::empty()
    } else {
        places_upto(f, list, calls, n - 1) + places_below(
            f,
            list[n - 1],
            calls,
            f.block(list[n - 1]).insts.len() as int,
        )
    }
}

/// The stores, or the calls, of a loop.
pub open spec fn places_of(f: FuncView, l: LoopView, calls: bool) -> Seq<Place> {
    places_upto(f, l.blocks, calls, l.blocks.len() as int)
}

/// The only call of the loop, which has no result: its place, its target and
/// its arguments.
pub open spec fn call_of(f: FuncView, l: LoopView) -> Option<(BlockId, Seq<char>, Seq<ValueId>)> {
    let places = places_of(f, l, true);
    if places.len() != 1 {
        None
    } else {
        let inst = f.inst(places[0].block, places[0].index as int);
        match inst.kind {
            KindView::Call { name, args } => if inst.result is None {
                Some((places[0].block, name, args))
            } else {
                None
            },
            _ => None,
        }
    }
}

/// The bound of the test `counter < bound` in the header.
pub open spec fn less_than_bound(f: FuncView, l: LoopView, counter: ValueId) -> Option<ValueId> {
    match patterns::branch_of(f, l.header) {
        Some((cond, t, e)) => if !l.has(t) || l.has(e) {
            None
        } else {
            match patterns::compare_of(f, cond) {
                Some((CompareOp::Lt, lhs, rhs)) => if lhs == counter {
                    Some(rhs)
                } else {
                    None
                },
                _ => None,
            }
        },
        None => None,
    }
}

/// The loop counts the phi up from zero by one: the bound.
pub open spec fn zero_based(f: FuncView, l: LoopView, phi: ValueId) -> Option<ValueId> {
    match loops::induction_of(f, l, phi) {
        Some(iv) => if iv.step != 1 || util::const_i32_of(f, iv.initial) != Some(0i32) {
            None
        } else {
            less_than_bound(f, l, phi)
        },
        None => None,
    }
}

/// The first loop from `k` on that counts the phi up from zero by one, and the
/// bound.
pub open spec fn zero_based_from(f: FuncView, list: Seq<LoopView>, phi: ValueId, k: int) -> Option<
    (int, ValueId),
>
    decreases list.len() - k,
{
    if k < 0 || k >= list.len() {
        None
    } else {
        match zero_based(f, list[k], phi) {
            Some(bound) => Some((k, bound)),
            None => zero_based_from(f, list, phi, k + 1),
        }
    }
}

/// Every block of `b` is one of `a`.
pub open spec fn covers(a: LoopView, b: LoopView) -> bool {
    forall|k: int| 0 <= k < b.blocks.len() ==> a.has(#[trigger] b.blocks[k])
}

/// The two loops run over the square, before the call.
pub open spec fn rectangle_fits(
    f: FuncView,
    outer: LoopView,
    row: LoopView,
    column: LoopView,
    store_block: BlockId,
    call_block: BlockId,
) -> bool {
    match row.unique_latch() {
        Some(row_latch) => {
            &&& covers(outer, row)
            &&& covers(row, column)
            &&& column.has(store_block)
            &&& column.unique_latch() == Some(store_block)
            &&& row.exit_edges == seq![(row.header, call_block)]
            &&& column.exit_edges == seq![(column.header, row_latch)]
            &&& cfg::dominates(f, row.header, column.header)
            &&& cfg::dominates(f, column.header, row_latch)
            &&& cfg::dominates(f, row.header, call_block)
        },
        None => false,
    }
}

/// The instruction zeroes or copies memory.
pub open spec fn is_bulk(inst: InstView) -> bool {
    inst.kind is MemZero || inst.kind is MemCopy
}

pub open spec fn has_bulk(f: FuncView, l: LoopView) -> bool {
    exists|b: BlockId, i: int|
        l.has(b) && f.has_inst(b, i) && is_bulk(#[trigger] f.inst(b, i))
}

/// The instruction, if it loads, loads from the root.
pub open spec fn loads_from(f: FuncView, inst: InstView, root: ValueId) -> bool {
    match inst.kind {
        KindView::Load { ptr } => match memory::root_in(f, ptr, MAX_POINTER_DEPTH as nat) {
            Some(r) => memory::same_root(f, r, root),
            None => false,
        },
        _ => true,
    }
}

pub open spec fn all_load_from(f: FuncView, l: LoopView, root: ValueId) -> bool {
    forall|b: BlockId, i: int|
        l.has(b) && f.has_inst(b, i) ==> loads_from(f, #[trigger] f.inst(b, i), root)
}

pub open spec fn path_of(f: FuncView, v: ValueId) -> Option<memory::PathView> {
    memory::path_in(f, v, MAX_POINTER_DEPTH as nat)
}

/// The copy that the store makes.
pub open spec fn copy_by(
    f: FuncView,
    outer: LoopView,
    list: Seq<LoopView>,
    call_block: BlockId,
    store_block: BlockId,
    destination: ValueId,
    value: ValueId,
) -> Option<MatrixCopy> {
    match patterns::load_of(f, value) {
        Some(source) => match (path_of(f, destination), path_of(f, source)) {
            (Some(d), Some(s)) => if memory::same_root(f, d.root, s.root) || d.indices.len() != 2
                || s.indices != d.indices || !memory::is_stable(f, d.root, outer.blocks)
                || !memory::is_stable(f, s.root, outer.blocks) {
                None
            } else {
                match (
                    zero_based_from(f, list, d.indices[0], 0),
                    zero_based_from(f, list, d.indices[1], 0),
                ) {
                    (Some((r, bound)), Some((c, bound2))) => if bound == bound2 && rectangle_fits(
                        f,
                        outer,
                        list[r],
                        list[c],
                        store_block,
                        call_block,
                    ) && all_load_from(f, outer, s.root) {
                        Some(
                            MatrixCopy { destination_root: d.root, source_root: s.root, bound },
                        )
                    } else {
                        None
                    },
                    _ => None,
                }
            },
            _ => None,
        },
        None => None,
    }
}

/// The complete copy that the loop makes before the call.
pub open spec fn complete_copy(
    f: FuncView,
    outer: LoopView,
    list: Seq<LoopView>,
    call_block: BlockId,
) -> Option<MatrixCopy> {
    let stores = places_of(f, outer, false);
    if has_bulk(f, outer) || stores.len() != 1 {
        None
    } else {
        match f.inst(stores[0].block, stores[0].index as int).kind {
            KindView::Store { ptr, value } => copy_by(
                f,
                outer,
                list,
                call_block,
                stores[0].block,
                ptr,
                value,
            ),
            _ => None,
        }
    }
}

/// All indices are zero.
pub open spec fn all_zero(f: FuncView, indices: Seq<ValueId>) -> bool {
    forall|k: int|
        0 <= k < indices.len() ==> util::const_i32_of(f, #[trigger] indices[k]) == Some(0i32)
}

/// The argument points to the start of the destination.
pub open spec fn points_into(f: FuncView, arg: ValueId, root: ValueId) -> bool {
    match path_of(f, arg) {
        Some(p) => memory::same_root(f, p.root, root) && all_zero(f, p.indices),
        None => false,
    }
}

/// The first argument from `k` on that points to the start of the destination.
pub open spec fn destination_from(f: FuncView, args: Seq<ValueId>, root: ValueId, k: int) -> Option<int>
    decreases args.len() - k,
{
    if k < 0 || k >= args.len() {
        None
    } else if points_into(f, args[k], root) {
        Some(k)
    } else {
        destination_from(f, args, root, k + 1)
    }
}

/// The first place of the value in the list, from `k` on.
pub open spec fn value_from(args: Seq<ValueId>, v: ValueId, k: int) -> Option<int>
    decreases args.len() - k,
{
    if k < 0 || k >= args.len() {
        None
    } else if args[k] == v {
        Some(k)
    } else {
        value_from(args, v, k + 1)
    }
}

pub open spec fn is_pointer(f: FuncView, v: ValueId) -> bool {
    f.has_value(v) && f.value(v).ty is Ptr
}

/// The argument, if it is a pointer, points to the start of the destination or
/// into another stable object.
pub open spec fn argument_fits(f: FuncView, outer: LoopView, arg: ValueId, root: ValueId) -> bool {
    is_pointer(f, arg) ==> match path_of(f, arg) {
        Some(p) => if memory::same_root(f, p.root, root) {
            all_zero(f, p.indices)
        } else {
            memory::is_stable(f, p.root, outer.blocks)
        },
        None => false,
    }
}

/// The number of pointers to the destination among the first `n` arguments.
pub open spec fn destinations(f: FuncView, args: Seq<ValueId>, root: ValueId, n: int) -> nat
    decreases n,
{
    if n <= 0 {
        0
    } else {
        destinations(f, args, root, n - 1) + (if is_pointer(f, args[n - 1]) && points_into(
            f,
            args[n - 1],
            root,
        ) {
            1nat
        } else {
            0nat
        })
    }
}

/// The arguments are the same in every round, and one of them points to the
/// start of the destination.
pub open spec fn arguments_fit(f: FuncView, outer: LoopView, args: Seq<ValueId>, copy: MatrixCopy) -> bool {
    &&& forall|k: int|
        0 <= k < args.len() ==> !patterns::defined_in(f, #[trigger] args[k], outer.blocks)
            && argument_fits(f, outer, args[k], copy.destination_root)
    &&& destinations(f, args, copy.destination_root, args.len() as int) == 1
    &&& !memory::same_root(f, copy.source_root, copy.destination_root)
    &&& memory::is_stable(f, copy.destination_root, outer.blocks)
    &&& memory::is_stable(f, copy.source_root, outer.blocks)
}

// ---------------------------------------------------------------------------
// Mathematical model: the callee
// ---------------------------------------------------------------------------

/// The value that is one less.
pub open spec fn one_less(f: FuncView, v: ValueId) -> Option<ValueId> {
    match patterns::binary_of(f, v) {
        Some((BinaryOp::Iadd, lhs, rhs)) => if util::const_i32_of(f, rhs) == Some(1i32) {
            Some(lhs)
        } else if util::const_i32_of(f, lhs) == Some(1i32) {
            Some(rhs)
        } else {
            None
        },
        _ => None,
    }
}

/// The block is behind the test of the loop's header: the test holds there.
pub open spec fn is_behind_test(f: FuncView, l: LoopView, b: BlockId) -> bool {
    l.has(b) && b != l.header && match patterns::branch_of(f, l.header) {
        Some((_, taken, _)) => cfg::dominates(f, taken, b),
        None => false,
    }
}

/// The loop counts the index up by one, and the access is behind its test
/// against the bound.
pub open spec fn counts_to(
    f: FuncView,
    l: LoopView,
    index: ValueId,
    bound: ValueId,
    access: BlockId,
) -> Option<InductionVariable> {
    match loops::induction_of(f, l, index) {
        Some(iv) => if iv.step == 1 && less_than_bound(f, l, index) == Some(bound)
            && is_behind_test(f, l, access) {
            Some(iv)
        } else {
            None
        },
        None => None,
    }
}

/// A larger loop lies around loop `l`.
pub open spec fn has_parent(list: Seq<LoopView>, l: LoopView) -> bool {
    exists|k: int|
        0 <= k < list.len() && covers(#[trigger] list[k], l) && list[k].blocks.len()
            > l.blocks.len()
}

/// The value is a nonnegative constant.
pub open spec fn is_nonnegative(f: FuncView, v: ValueId) -> bool {
    match util::const_i32_of(f, v) {
        Some(c) => c >= 0,
        None => false,
    }
}

/// The loop at place `k` keeps the index between zero and the bound: it starts
/// at a nonnegative constant, or behind an index of a larger loop of which the
/// same holds.
pub open spec fn kept_by(
    f: FuncView,
    list: Seq<LoopView>,
    index: ValueId,
    bound: ValueId,
    access: BlockId,
    fuel: nat,
    k: int,
) -> bool
    decreases fuel, list.len() - k,
{
    if k < 0 || k >= list.len() {
        false
    } else {
        (match counts_to(f, list[k], index, bound, access) {
            Some(iv) => is_nonnegative(f, iv.initial) || (match one_less(f, iv.initial) {
                Some(parent) => fuel > 0 && has_parent(list, list[k]) && kept_by(
                    f,
                    list,
                    parent,
                    bound,
                    list[k].header,
                    (fuel - 1) as nat,
                    0,
                ),
                None => false,
            }),
            None => false,
        }) || kept_by(f, list, index, bound, access, fuel, k + 1)
    }
}

/// The index lies between zero and the bound.
pub open spec fn is_bounded(
    f: FuncView,
    list: Seq<LoopView>,
    index: ValueId,
    bound: ValueId,
    access: BlockId,
) -> bool {
    kept_by(f, list, index, bound, access, f.values.len(), 0)
}

/// The pointer that the instruction reads or writes.
pub open spec fn accessed(inst: InstView) -> Option<(ValueId, bool)> {
    match inst.kind {
        KindView::Load { ptr } => Some((ptr, false)),
        KindView::Store { ptr, .. } => Some((ptr, true)),
        _ => None,
    }
}

/// The instruction reads or writes only what the overwrite allows.
pub open spec fn access_fits(
    f: FuncView,
    list: Seq<LoopView>,
    destination: ValueId,
    bound: ValueId,
    b: BlockId,
    inst: InstView,
) -> bool {
    &&& !(inst.kind is Call) && !is_bulk(inst)
    &&& accessed(inst) matches Some((ptr, writes)) ==> match path_of(f, ptr) {
        Some(p) => {
            &&& f.params.contains(p.root)
            &&& writes ==> p.root == destination
            &&& p.root == destination ==> p.indices.len() == 2 && is_bounded(
                f,
                list,
                p.indices[0],
                bound,
                b,
            ) && is_bounded(f, list, p.indices[1], bound, b)
        },
        None => false,
    }
}

/// The function refers to a global.
pub open spec fn has_global(f: FuncView) -> bool {
    exists|v: int| 0 <= v < f.values.len() && (#[trigger] f.values[v]).kind is Global
}

/// The function reads and updates only the square that its parameters give.
pub open spec fn callee_fits(f: FuncView, destination_param: int, bound_param: int) -> bool {
    &&& !is_large(f)
    &&& f.ret == Type::Void
    &&& 0 <= destination_param < f.params.len()
    &&& 0 <= bound_param < f.params.len()
    &&& f.value(f.params[destination_param]).ty is Ptr
    &&& f.value(f.params[bound_param]).ty == Type::I32
    &&& !has_global(f)
    &&& forall|b: BlockId, i: int|
        f.has_inst(b, i) ==> access_fits(
            f,
            loops::loops_of(f),
            f.params[destination_param],
            f.params[bound_param],
            b,
            #[trigger] f.inst(b, i),
        )
    &&& exists|b: BlockId, i: int| f.has_inst(b, i) && (#[trigger] f.inst(b, i)).kind is Store
}

// ---------------------------------------------------------------------------
// Mathematical model: the candidate
// ---------------------------------------------------------------------------

/// The callee takes what the loop hands it.
pub open spec fn call_fits(
    f: FuncView,
    funcs: Seq<FuncView>,
    name: Seq<char>,
    args: Seq<ValueId>,
    outer: LoopView,
    copy: MatrixCopy,
) -> bool {
    match analyze::target_of(analyze::names_of(funcs), name) {
        Some(id) => match (
            destination_from(f, args, copy.destination_root, 0),
            value_from(args, copy.bound, 0),
        ) {
            (Some(d), Some(b)) => arguments_fit(f, outer, args, copy) && callee_fits(
                funcs[id.0 as int],
                d,
                b,
            ),
            _ => false,
        },
        None => false,
    }
}

/// The loop makes a complete overwrite in every round.
pub open spec fn overwrites(
    f: FuncView,
    funcs: Seq<FuncView>,
    list: Seq<LoopView>,
    outer: LoopView,
    latch: BlockId,
    counted_loop: CountedLoop,
) -> bool {
    let counter = counted_loop.induction.phi;
    &&& counted_loop.trip_count >= 2
    &&& patterns::phi_results(f, outer.header) == seq![counter]
    &&& is_control_only(f, counter, counted_loop.condition, counted_loop.induction.next)
    &&& match call_of(f, outer) {
        Some((b, name, args)) => b == latch && match complete_copy(f, outer, list, b) {
            Some(copy) => call_fits(f, funcs, name, args, outer, copy),
            None => false,
        },
        None => false,
    }
}

/// The value of the counter in the last round, if it fits.
pub open spec fn last_value(f: FuncView, c: CountedLoop) -> Option<i32> {
    match util::const_i32_of(f, c.induction.initial) {
        Some(initial) => {
            let last = initial + c.induction.step * (c.trip_count - 1);
            if i32::MIN <= last <= i32::MAX {
                Some(last as i32)
            } else {
                None
            }
        },
        None => None,
    }
}

/// What the loop comes to: `None` where the next may fit, `Some(None)` where
/// the function is given up.
pub open spec fn loop_attempt(
    f: FuncView,
    funcs: Seq<FuncView>,
    list: Seq<LoopView>,
    outer: LoopView,
) -> Option<Option<Candidate>> {
    match (outer.unique_entering_pred, outer.unique_latch(), counted(f, outer)) {
        (Some(entering), Some(latch), Some(c)) => if overwrites(f, funcs, list, outer, latch, c) {
            match last_value(f, c) {
                Some(last) => Some(
                    Some(
                        Candidate { counter: c.induction.phi, entering, final_initial: last },
                    ),
                ),
                None => Some(None),
            }
        } else {
            None
        },
        _ => None,
    }
}

/// The candidate from place `k` of the order on.
pub open spec fn candidate_from(
    f: FuncView,
    funcs: Seq<FuncView>,
    list: Seq<LoopView>,
    order: Seq<usize>,
    k: int,
) -> Option<Candidate>
    decreases order.len() - k,
{
    if k < 0 || k >= order.len() {
        None
    } else {
        match loop_attempt(f, funcs, list, list[order[k] as int]) {
            Some(r) => r,
            None => candidate_from(f, funcs, list, order, k + 1),
        }
    }
}

/// The candidate of a function among the functions.
pub open spec fn candidate_of(f: FuncView, funcs: Seq<FuncView>) -> Option<Candidate> {
    if is_large(f) {
        None
    } else {
        let list = loops::loops_of(f);
        candidate_from(f, funcs, list, loops::size_order(list, false), 0)
    }
}

/// The entries from `pred` with another value.
pub open spec fn entry_restarted(entry: (BlockId, ValueId), pred: BlockId, v: ValueId) -> (
    BlockId,
    ValueId,
) {
    if entry.0 == pred {
        (entry.0, v)
    } else {
        entry
    }
}

/// The function whose counter starts at its last value.
pub open spec fn restarted(f: FuncView, c: Candidate) -> FuncView {
    let v = util::const_value(f, Const::Int(c.final_initial));
    let g = util::with_const(f, Const::Int(c.final_initial));
    match util::def_kind(g, c.counter) {
        Some(KindView::Phi { incomings }) => match g.value(c.counter).kind {
            ValueKindView::Inst(b, i) => g.with_inst(
                b,
                i as int,
                InstView {
                    kind: KindView::Phi {
                        incomings: incomings.map_values(
                            |e: (BlockId, ValueId)| entry_restarted(e, c.entering, v),
                        ),
                    },
                    ..g.inst(b, i as int)
                },
            ),
            _ => g,
        },
        _ => g,
    }
}

/// The effect on one function of the module. A result that would not be valid
/// is discarded.
pub open spec fn elided(f: FuncView, funcs: Seq<FuncView>) -> FuncView {
    match candidate_of(f, funcs) {
        Some(c) => if verify::valid(restarted(f, c)) {
            restarted(f, c)
        } else {
            f
        },
        None => f,
    }
}

/// The effect of the pass.
pub open spec fn elided_module(m: ModuleView) -> ModuleView {
    if m.funcs.len() > MAX_FUNCTIONS {
        m
    } else {
        ModuleView { funcs: m.funcs.map_values(|f: FuncView| elided(f, m.funcs)), ..m }
    }
}

// ---------------------------------------------------------------------------
// Laws
// ---------------------------------------------------------------------------

/// A loop that starts at the last value of its counter runs once.
pub proof fn last_value_runs_once(initial: int, step: int, bound: int, n: int)
    requires
        loops::trips(CompareOp::Lt, initial, step, bound) == Some(n),
        n >= 1,
    ensures
        loops::trips(CompareOp::Lt, initial + step * (n - 1), step, bound) == Some(1int),
{
    let d = bound - initial;
    assert(step * (n - 1) < d <= step * n) by (nonlinear_arith)
        requires
            step > 0,
            d > 0,
            n == (d + step - 1) / step,
    ;
    let rest = bound - (initial + step * (n - 1));
    assert(step * n == step * (n - 1) + step) by (nonlinear_arith);
    assert(0 < rest <= step);
    assert((rest + step - 1) / step == 1) by (nonlinear_arith)
        requires
            0 < rest <= step,
    ;
}

/// The state after `n` rounds.
pub open spec fn after_rounds<T>(round: spec_fn(T) -> T, state: T, n: nat) -> T
    decreases n,
{
    if n == 0 {
        state
    } else {
        round(after_rounds(round, state, (n - 1) as nat))
    }
}

/// Where a round does not depend on the state before it, any number of rounds
/// does what the last one does.
pub proof fn last_round_is_enough<T>(round: spec_fn(T) -> T, state: T, n: nat)
    requires
        n >= 1,
        forall|a: T, b: T| #[trigger] round(a) == #[trigger] round(b),
    ensures
        after_rounds(round, state, n) == after_rounds(round, state, 1),
{
    reveal_with_fuel(after_rounds, 2);
    let before = after_rounds(round, state, (n - 1) as nat);
    assert(round(before) == round(state));
}

/// The pass keeps functions valid.
pub proof fn elision_keeps_validity(f: FuncView, funcs: Seq<FuncView>)
    requires
        verify::valid(f),
    ensures
        verify::valid(elided(f, funcs)),
{
}

} // verus!
