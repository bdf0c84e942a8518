//! Recognition of loops that sum a recurrence over a range.
use vstd::prelude::*;

use crate::cfg::{ControlFlowGraph, Dominators};
use crate::edit;
use crate::edit::inst_operands;
use crate::ir::{
    BinaryOp, BlockId, CompareOp, FuncView, Function, Inst, InstKind, InstView, KindView, ValueId,
};
use crate::loops;
use crate::loops::{analyze_i32_induction, LoopInfo, LoopView, NaturalLoop};
use crate::pass::odd_chain_group::recognize;
use crate::pass::odd_chain_group::recognize::{
    loaded_global, AggregatePlan, RecurrenceKind, RecurrenceSpec, RecurrenceView, SAFE_LIMIT,
};
use crate::patterns;
use crate::patterns::{as_binary, as_branch, as_compare, collect_phi_results, contains_value};
use crate::util;
use crate::util::{const_i32, defining_inst, phi_incoming};

verus! {

/// A recurrence with the name of its function.
pub struct NamedSpec {
    pub name: String,
    pub recurrence: RecurrenceSpec,
}

pub struct NamedView {
    pub name: Seq<char>,
    pub recurrence: RecurrenceView,
}

impl View for NamedSpec {
    type V = NamedView;

    open spec fn view(&self) -> NamedView {
        NamedView { name: self.name@, recurrence: self.recurrence@ }
    }
}

pub open spec fn specs_view(specs: Seq<NamedSpec>) -> Seq<NamedView> {
    specs.map_values(|s: NamedSpec| s@)
}

/// The last of the first `n` recurrences with the name.
pub open spec fn lookup(specs: Seq<NamedView>, name: Seq<char>, n: int) -> Option<RecurrenceView>
    decreases n,
{
    if n <= 0 {
        None
    } else if specs[n - 1].name == name {
        Some(specs[n - 1].recurrence)
    } else {
        lookup(specs, name, n - 1)
    }
}

/// What an attempt to recognize a loop comes to.
#[derive(Clone, Copy, PartialEq, Eq, Structural)]
pub enum Attempt {
    /// The next counter or loop may fit.
    Next,
    /// The function is given up.
    Stop,
    Found(AggregatePlan),
}

// ---------------------------------------------------------------------------
// Mathematical model
// ---------------------------------------------------------------------------

/// The bound of the test `counter <= bound` by which the header leaves the
/// loop.
pub open spec fn upper_bound(
    f: FuncView,
    header: BlockId,
    counter: ValueId,
    exit_pred: BlockId,
    exit: BlockId,
) -> Option<ValueId> {
    if header != exit_pred {
        None
    } else {
        match patterns::branch_of(f, header) {
            Some((cond, _, e)) => match patterns::compare_of(f, cond) {
                Some((CompareOp::Le, lhs, rhs)) => if e == exit && lhs == counter {
                    Some(rhs)
                } else {
                    None
                },
                _ => None,
            },
            None => None,
        }
    }
}

/// The phi starts at zero and is not the counter.
pub open spec fn is_sum(f: FuncView, v: ValueId, counter: ValueId, preheader: BlockId) -> bool {
    v != counter && match util::phi_incoming_of(f, v, preheader) {
        Some(x) => util::const_i32_of(f, x) == Some(0i32),
        None => false,
    }
}

/// The first phi, from place `k` on, that starts at zero and is not the
/// counter.
pub open spec fn sum_from(
    f: FuncView,
    phis: Seq<ValueId>,
    counter: ValueId,
    preheader: BlockId,
    k: int,
) -> Option<ValueId>
    decreases phis.len() - k,
{
    if k < 0 || k >= phis.len() {
        None
    } else if is_sum(f, phis[k], counter, preheader) {
        Some(phis[k])
    } else {
        sum_from(f, phis, counter, preheader, k + 1)
    }
}

/// The other of two operands.
pub open spec fn other(lhs: ValueId, rhs: ValueId, v: ValueId) -> Option<ValueId> {
    if lhs == v {
        Some(rhs)
    } else if rhs == v {
        Some(lhs)
    } else {
        None
    }
}

/// The sum changes to `(sum + chain(counter, 0)) % modulus`: the call, the
/// modulus and the kind of the recurrence that is called.
pub open spec fn summed(
    f: FuncView,
    l: LoopView,
    latch: BlockId,
    counter: ValueId,
    accumulator: ValueId,
    next: ValueId,
    specs: Seq<NamedView>,
    limit_global: Seq<char>,
) -> Option<(ValueId, i32, RecurrenceKind)> {
    match patterns::binary_of(f, next) {
        Some((BinaryOp::Imod, added, modulus)) => match patterns::binary_of(f, added) {
            Some((BinaryOp::Iadd, lhs, rhs)) => match other(lhs, rhs, accumulator) {
                Some(call) => match util::def_kind(f, call) {
                    Some(KindView::Call { name, args }) => match (
                        lookup(specs, name, specs.len() as int),
                        util::const_i32_of(f, modulus),
                    ) {
                        (Some(r), Some(m)) => if r.limit_global == limit_global && args.len() == 2
                            && args[0] == counter && util::const_i32_of(f, args[1]) == Some(0i32)
                            && l.has(latch) {
                            Some((call, m, r.kind))
                        } else {
                            None
                        },
                        _ => None,
                    },
                    _ => None,
                },
                None => None,
            },
            _ => None,
        },
        _ => None,
    }
}

/// The value is one of the loop's own or a constant.
pub open spec fn is_known(f: FuncView, allowed: Seq<ValueId>, v: ValueId) -> bool {
    allowed.contains(v) || util::const_i32_of(f, v) is Some
}

/// The instruction belongs to the sum.
pub open spec fn belongs(f: FuncView, allowed: Seq<ValueId>, inst: InstView) -> bool {
    inst.kind is Nop || match inst.result {
        Some(r) => allowed.contains(r) || ((inst.kind is ICompare || inst.kind is Binary)
            && forall|k: int|
            0 <= k < edit::operands(inst.kind).len() ==> is_known(
                f,
                allowed,
                #[trigger] edit::operands(inst.kind)[k],
            )),
        None => false,
    }
}

/// The loop holds nothing else.
pub open spec fn is_exact(f: FuncView, l: LoopView, allowed: Seq<ValueId>) -> bool {
    forall|b: BlockId, i: int|
        l.has(b) && f.has_inst(b, i) ==> belongs(f, allowed, #[trigger] f.inst(b, i))
}

/// The sums fit in the range of the numbers.
pub open spec fn fits(modulus: i32) -> bool {
    modulus > 0 && modulus + SAFE_LIMIT <= i32::MAX
}

/// What the loop comes to with the phi as the counter.
pub open spec fn attempt_with(
    f: FuncView,
    l: LoopView,
    preheader: BlockId,
    latch: BlockId,
    phis: Seq<ValueId>,
    counter: ValueId,
    specs: Seq<NamedView>,
) -> Attempt {
    let (exit_pred, exit) = l.exit_edges[0];
    match loops::induction_of(f, l, counter) {
        Some(iv) => if iv.step != 1 || util::const_i32_of(f, iv.initial) != Some(1i32) {
            Attempt::Next
        } else {
            match upper_bound(f, l.header, counter, exit_pred, exit) {
                Some(limit) => match recognize::global_loaded(f, limit) {
                    Some((limit_ptr, limit_global)) => match sum_from(
                        f,
                        phis,
                        counter,
                        preheader,
                        0,
                    ) {
                        Some(accumulator) => match util::phi_incoming_of(f, accumulator, latch) {
                            Some(next) => match summed(
                                f,
                                l,
                                latch,
                                counter,
                                accumulator,
                                next,
                                specs,
                                limit_global,
                            ) {
                                Some((call, modulus, kind)) => if fits(modulus) && is_exact(
                                    f,
                                    l,
                                    seq![counter, accumulator, iv.next, next, call, limit],
                                ) {
                                    Attempt::Found(
                                        AggregatePlan {
                                            preheader,
                                            header: l.header,
                                            exit_pred,
                                            exit,
                                            limit_ptr,
                                            accumulator,
                                            modulus,
                                            kind,
                                        },
                                    )
                                } else {
                                    Attempt::Next
                                },
                                None => Attempt::Stop,
                            },
                            None => Attempt::Stop,
                        },
                        None => Attempt::Stop,
                    },
                    None => Attempt::Next,
                },
                None => Attempt::Next,
            }
        },
        None => Attempt::Next,
    }
}

/// What the loop comes to with the phis from place `k` on as counters.
pub open spec fn attempts_from(
    f: FuncView,
    l: LoopView,
    preheader: BlockId,
    latch: BlockId,
    phis: Seq<ValueId>,
    specs: Seq<NamedView>,
    k: int,
) -> Attempt
    decreases phis.len() - k,
{
    if k < 0 || k >= phis.len() {
        Attempt::Next
    } else {
        match attempt_with(f, l, preheader, latch, phis, phis[k], specs) {
            Attempt::Next => attempts_from(f, l, preheader, latch, phis, specs, k + 1),
            r => r,
        }
    }
}

/// What the loop comes to.
pub open spec fn loop_attempt(f: FuncView, l: LoopView, specs: Seq<NamedView>) -> Attempt {
    match (l.dedicated_preheader, l.unique_latch()) {
        (Some(preheader), Some(latch)) => if l.exit_edges.len() == 1 {
            attempts_from(f, l, preheader, latch, patterns::phi_results(f, l.header), specs, 0)
        } else {
            Attempt::Next
        },
        _ => Attempt::Next,
    }
}

/// The plan among the loops from `k` on.
pub open spec fn plan_from(f: FuncView, list: Seq<LoopView>, specs: Seq<NamedView>, k: int) -> Option<
    AggregatePlan,
>
    decreases list.len() - k,
{
    if k < 0 || k >= list.len() {
        None
    } else {
        match loop_attempt(f, list[k], specs) {
            Attempt::Next => plan_from(f, list, specs, k + 1),
            Attempt::Stop => None,
            Attempt::Found(plan) => Some(plan),
        }
    }
}

/// The loop of the function that sums a recurrence.
pub open spec fn aggregate_of(f: FuncView, specs: Seq<NamedView>) -> Option<AggregatePlan> {
    plan_from(f, loops::loops_of(f), specs, 0)
}

/// The parts of the plan exist.
pub open spec fn plan_in(f: FuncView, p: AggregatePlan) -> bool {
    &&& f.has_block(p.preheader)
    &&& f.has_block(p.header)
    &&& f.has_block(p.exit_pred)
    &&& f.has_block(p.exit)
    &&& f.has_value(p.limit_ptr)
    &&& f.has_value(p.accumulator)
    &&& fits(p.modulus)
}

// ---------------------------------------------------------------------------
// Executable functions
// ---------------------------------------------------------------------------

fn find_spec<'a>(specs: &'a Vec<NamedSpec>, name: &String) -> (r: Option<&'a RecurrenceSpec>)
    ensures
        match r {
            Some(s) => lookup(specs_view(specs@), name@, specs.len() as int) == Some(s@),
            None => lookup(specs_view(specs@), name@, specs.len() as int) is None,
        },
{
    let mut n = specs.len();
    while n > 0
        invariant
            n <= specs.len(),
            lookup(specs_view(specs@), name@, specs.len() as int) == lookup(
                specs_view(specs@),
                name@,
                n as int,
            ),
        decreases n,
    {
        assert(specs_view(specs@)[n - 1] == specs@[n - 1]@);
        if specs[n - 1].name == *name {
            return Some(&specs[n - 1].recurrence);
        }
        n = n - 1;
    }
    None
}

fn loop_upper_bound(
    func: &Function,
    header: BlockId,
    counter: ValueId,
    exit_pred: BlockId,
    exit: BlockId,
) -> (r: Option<ValueId>)
    ensures
        r == upper_bound(func@, header, counter, exit_pred, exit),
{
    if header != exit_pred {
        return None;
    }
    let (cond, _, e) = as_branch(func, header)?;
    let (op, lhs, rhs) = as_compare(func, cond)?;
    if op == CompareOp::Le && e == exit && lhs == counter {
        Some(rhs)
    } else {
        None
    }
}

fn find_sum(func: &Function, phis: &Vec<ValueId>, counter: ValueId, preheader: BlockId) -> (r: Option<
    ValueId,
>)
    ensures
        r == sum_from(func@, phis@, counter, preheader, 0),
{
    let n = phis.len();
    for k in 0..n
        invariant
            n == phis.len(),
            sum_from(func@, phis@, counter, preheader, 0) == sum_from(
                func@,
                phis@,
                counter,
                preheader,
                k as int,
            ),
    {
        let v = phis[k];
        if v != counter {
            if let Some(x) = phi_incoming(func, v, preheader) {
                if let Some(c) = const_i32(func, x) {
                    if c == 0 {
                        return Some(v);
                    }
                }
            }
        }
    }
    None
}

fn find_other(lhs: ValueId, rhs: ValueId, v: ValueId) -> (r: Option<ValueId>)
    ensures
        r == other(lhs, rhs, v),
{
    if lhs == v {
        Some(rhs)
    } else if rhs == v {
        Some(lhs)
    } else {
        None
    }
}

fn aggregate_latch(
    func: &Function,
    l: &NaturalLoop,
    latch: BlockId,
    counter: ValueId,
    accumulator: ValueId,
    next: ValueId,
    specs: &Vec<NamedSpec>,
    limit_global: &String,
) -> (r: Option<(ValueId, i32, RecurrenceKind)>)
    ensures
        r == summed(
            func@,
            l@,
            latch,
            counter,
            accumulator,
            next,
            specs_view(specs@),
            limit_global@,
        ),
{
    assert(specs_view(specs@).len() == specs.len());
    let (op, added, modulus) = as_binary(func, next)?;
    if op != BinaryOp::Imod {
        return None;
    }
    let (op, lhs, rhs) = as_binary(func, added)?;
    if op != BinaryOp::Iadd {
        return None;
    }
    let call = find_other(lhs, rhs, accumulator)?;
    match defining_inst(func, call) {
        Some(InstKind::Call { name, args }) => {
            let r = find_spec(specs, name)?;
            let m = const_i32(func, modulus)?;
            if r.limit_global != *limit_global || args.len() != 2 || args[0] != counter
                || !l.contains(latch) {
                return None;
            }
            match const_i32(func, args[1]) {
                Some(0) => Some((call, m, r.kind)),
                _ => None,
            }
        },
        _ => None,
    }
}

#[verifier::loop_isolation(false)]
fn inst_belongs(func: &Function, allowed: &Vec<ValueId>, inst: &Inst) -> (r: bool)
    ensures
        r == belongs(func@, allowed@, inst@),
{
    let shaped = match inst.kind {
        InstKind::Nop => return true,
        InstKind::ICompare { .. } => true,
        InstKind::Binary { .. } => true,
        _ => false,
    };
    let result = match inst.result {
        Some(v) => v,
        None => return false,
    };
    if contains_value(allowed, result) {
        return true;
    }
    if !shaped {
        return false;
    }
    let list = inst_operands(&inst.kind);
    let n = list.len();
    for k in 0..n
        invariant
            forall|j: int| 0 <= j < k ==> is_known(func@, allowed@, #[trigger] list@[j]),
    {
        if !contains_value(allowed, list[k]) && const_i32(func, list[k]).is_none() {
            assert(!is_known(func@, allowed@, edit::operands(inst@.kind)[k as int]));
            return false;
        }
    }
    true
}

#[verifier::loop_isolation(false)]
fn loop_is_exact_aggregate(func: &Function, l: &NaturalLoop, allowed: &Vec<ValueId>) -> (r: bool)
    requires
        l@.within(func@.blocks.len()),
    ensures
        r == is_exact(func@, l@, allowed@),
{
    let ghost f = func@;
    let n = l.blocks.len();
    for x in 0..n
        invariant
            forall|j: int, i: int|
                0 <= j < x && f.has_inst(l@.blocks[j], i) ==> belongs(
                    f,
                    allowed@,
                    #[trigger] f.inst(l@.blocks[j], i),
                ),
    {
        let b = l.blocks[x];
        assert(l@.blocks[x as int].0 < f.blocks.len());
        let m = func.blocks[b.0].insts.len();
        for i in 0..m
            invariant
                m == f.block(b).insts.len(),
                forall|j: int| 0 <= j < i ==> belongs(f, allowed@, #[trigger] f.inst(b, j)),
        {
            let inst = &func.blocks[b.0].insts[i];
            assert(inst@ == f.inst(b, i as int));
            if !inst_belongs(func, allowed, inst) {
                assert(l@.has(b));
                assert(!belongs(f, allowed@, f.inst(b, i as int)));
                return false;
            }
        }
    }
    assert forall|b: BlockId, i: int| l@.has(b) && f.has_inst(b, i) implies belongs(
        f,
        allowed@,
        #[trigger] f.inst(b, i),
    ) by {
        let j = choose|j: int| 0 <= j < l@.blocks.len() && l@.blocks[j] == b;
        assert(belongs(f, allowed@, f.inst(l@.blocks[j], i)));
    }
    true
}

fn modulus_fits(modulus: i32) -> (r: bool)
    ensures
        r == fits(modulus),
{
    modulus > 0 && modulus <= i32::MAX - SAFE_LIMIT
}

proof fn lemma_sum_in(f: FuncView, phis: Seq<ValueId>, counter: ValueId, preheader: BlockId, k: int)
    requires
        edit::reads_wf(phis, f.values.len()),
    ensures
        sum_from(f, phis, counter, preheader, k) matches Some(v) ==> f.has_value(v),
    decreases phis.len() - k,
{
    if 0 <= k < phis.len() {
        assert(phis[k].0 < f.values.len());
        if !is_sum(f, phis[k], counter, preheader) {
            lemma_sum_in(f, phis, counter, preheader, k + 1);
        }
    }
}

fn try_counter(
    func: &Function,
    l: &NaturalLoop,
    preheader: BlockId,
    latch: BlockId,
    phis: &Vec<ValueId>,
    counter: ValueId,
    specs: &Vec<NamedSpec>,
) -> (r: Attempt)
    requires
        func@.wf(),
        l@.within(func@.blocks.len()),
        l.exit_edges.len() == 1,
        l.dedicated_preheader == Some(preheader),
        edit::reads_wf(phis@, func@.values.len()),
    ensures
        r == attempt_with(func@, l@, preheader, latch, phis@, counter, specs_view(specs@)),
        r matches Attempt::Found(p) ==> plan_in(func@, p),
{
    let exit_pred = l.exit_edges[0].0;
    let exit = l.exit_edges[0].1;
    assert(l@.exit_edges[0].1.0 < func@.blocks.len());
    let iv = match analyze_i32_induction(func, l, counter) {
        Some(iv) => iv,
        None => return Attempt::Next,
    };
    if iv.step != 1 {
        return Attempt::Next;
    }
    match const_i32(func, iv.initial) {
        Some(c) => if c != 1 {
            return Attempt::Next;
        },
        None => return Attempt::Next,
    }
    let limit = match loop_upper_bound(func, l.header, counter, exit_pred, exit) {
        Some(v) => v,
        None => return Attempt::Next,
    };
    let (limit_ptr, limit_global) = match loaded_global(func, limit) {
        Some(x) => x,
        None => return Attempt::Next,
    };
    let accumulator = match find_sum(func, phis, counter, preheader) {
        Some(v) => v,
        None => return Attempt::Stop,
    };
    let next = match phi_incoming(func, accumulator, latch) {
        Some(v) => v,
        None => return Attempt::Stop,
    };
    let (call, modulus, kind) = match aggregate_latch(
        func,
        l,
        latch,
        counter,
        accumulator,
        next,
        specs,
        &limit_global,
    ) {
        Some(x) => x,
        None => return Attempt::Stop,
    };
    let allowed = vec![counter, accumulator, iv.next, next, call, limit];
    assert(allowed@ =~= seq![counter, accumulator, iv.next, next, call, limit]);
    if !modulus_fits(modulus) || !loop_is_exact_aggregate(func, l, &allowed) {
        return Attempt::Next;
    }
    proof {
        lemma_sum_in(func@, phis@, counter, preheader, 0);
    }
    Attempt::Found(
        AggregatePlan {
            preheader,
            header: l.header,
            exit_pred,
            exit,
            limit_ptr,
            accumulator,
            modulus,
            kind,
        },
    )
}

fn try_loop(func: &Function, l: &NaturalLoop, specs: &Vec<NamedSpec>) -> (r: Attempt)
    requires
        func@.wf(),
        l@.within(func@.blocks.len()),
    ensures
        r == loop_attempt(func@, l@, specs_view(specs@)),
        r matches Attempt::Found(p) ==> plan_in(func@, p),
{
    let preheader = match l.dedicated_preheader {
        Some(b) => b,
        None => return Attempt::Next,
    };
    let latch = match l.unique_latch() {
        Some(b) => b,
        None => return Attempt::Next,
    };
    if l.exit_edges.len() != 1 {
        return Attempt::Next;
    }
    let phis = collect_phi_results(func, l.header);
    let n = phis.len();
    for k in 0..n
        invariant
            n == phis.len(),
            func@.wf(),
            l@.within(func@.blocks.len()),
            l.exit_edges.len() == 1,
            l.dedicated_preheader == Some(preheader),
            edit::reads_wf(phis@, func@.values.len()),
            loop_attempt(func@, l@, specs_view(specs@)) == attempts_from(
                func@,
                l@,
                preheader,
                latch,
                phis@,
                specs_view(specs@),
                k as int,
            ),
    {
        match try_counter(func, l, preheader, latch, &phis, phis[k], specs) {
            Attempt::Next => {},
            r => return r,
        }
    }
    Attempt::Next
}

/// Recognizes the loop of the function that sums a recurrence.
pub fn recognize_aggregate(func: &Function, specs: &Vec<NamedSpec>) -> (r: Option<AggregatePlan>)
    requires
        func@.wf(),
    ensures
        r == aggregate_of(func@, specs_view(specs@)),
        r matches Some(p) ==> plan_in(func@, p),
{
    let graph = ControlFlowGraph::new(func);
    let dom = Dominators::new(func, &graph);
    let info = LoopInfo::new(func, &graph, &dom);
    let list = info.loops();
    let ghost views = loops::loops_of(func@);
    let n = list.len();
    assert(func.blocks.len() == func@.blocks.len());
    for k in 0..n
        invariant
            n == list.len(),
            func@.wf(),
            func@.blocks.len() <= usize::MAX,
            views == loops::loops_of(func@),
            views == loops::loops_view(list@),
            aggregate_of(func@, specs_view(specs@)) == plan_from(
                func@,
                views,
                specs_view(specs@),
                k as int,
            ),
    {
        proof {
            assert(views[k as int] == list@[k as int]@);
            loops::lemma_listed_loop(func@, k as int);
        }
        match try_loop(func, &list[k], specs) {
            Attempt::Next => {},
            Attempt::Stop => return None,
            Attempt::Found(plan) => return Some(plan),
        }
    }
    None
}

} // verus!
