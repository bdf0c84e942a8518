//! Versioning of loops around a division.
//!
//! A compact loop that divides by one value that is fixed before the loop is
//! copied. The copy runs when the divisor is three and divides by the constant;
//! the original loop runs otherwise.
use vstd::prelude::*;

use crate::cfg::{ControlFlowGraph, Dominators};
use crate::edit;
use crate::edit::{inst_operands, terminator_operands};
use crate::flow;
use crate::flow::{any_marked, is_marked, mark_defined};
use crate::ir;
use crate::ir::{
    BinaryOp, BlockId, CompareOp, Const, FuncView, Function, Inst, InstKind, InstView, KindView,
    Module, ModuleView, Terminator, ValueId, ValueKind,
};
use crate::loops;
use crate::loops::{order_by_size, LoopInfo, LoopView, NaturalLoop};
use crate::patterns;
use crate::patterns::{append_comparison, is_defined_in};
use crate::query;
use crate::region;
use crate::region::{copied_block, copy_region};
use crate::util;
use crate::util::{get_or_add_i32_const, ValueMap};
use crate::verify;

verus! {

pub const SPECIALIZED_DIVISOR: i32 = 3;

pub const MAX_LOOP_BLOCKS: usize = 12;

pub const MAX_LOOP_INSTRUCTIONS: usize = 192;

/// A loop to version.
#[derive(Clone, Copy, PartialEq, Eq, Structural)]
pub struct Candidate {
    pub preheader: BlockId,
    pub header: BlockId,
    pub exit_pred: BlockId,
    pub exit: BlockId,
    pub divisor: ValueId,
}

// ---------------------------------------------------------------------------
// Mathematical model
// ---------------------------------------------------------------------------

/// The number of instructions in the first `n` blocks of the list.
pub open spec fn inst_count(f: FuncView, list: Seq<BlockId>, n: int) -> nat
    decreases n,
{
    if n <= 0 {
        0
    } else {
        inst_count(f, list, n - 1) + f.block(list[n - 1]).insts.len()
    }
}

/// The values other than those from `exit_pred` do not matter; those from
/// there are marked.
pub open spec fn takes_marked(
    marks: Seq<bool>,
    exit_pred: BlockId,
    incomings: Seq<(BlockId, ValueId)>,
) -> bool {
    forall|k: int|
        0 <= k < incomings.len() ==> (#[trigger] incomings[k]).0 != exit_pred || flow::marked(
            marks,
            incomings[k].1,
        )
}

/// The instruction reads a marked value in a way that the copy cannot serve.
pub open spec fn escapes(marks: Seq<bool>, exit_pred: BlockId, at_exit: bool, inst: InstView) -> bool {
    &&& flow::some_marked(marks, edit::operands(inst.kind))
    &&& !(at_exit && match inst.kind {
        KindView::Phi { incomings } => takes_marked(marks, exit_pred, incomings),
        _ => false,
    })
}

/// A value of the loop is read outside it, other than by phis of the exit.
pub open spec fn has_live_out(f: FuncView, l: LoopView, exit_pred: BlockId, exit: BlockId) -> bool {
    let marks = flow::defined_marks(f, l.blocks);
    ||| exists|b: BlockId, i: int|
        !l.has(b) && f.has_inst(b, i) && escapes(
            marks,
            exit_pred,
            b == exit,
            #[trigger] f.inst(b, i),
        )
    ||| exists|b: BlockId|
        !l.has(b) && f.has_block(b) && flow::some_marked(
            marks,
            edit::terminator_reads(#[trigger] f.terminator(b)),
        )
}

/// The instruction divides by the value, which is fixed before the loop and
/// no constant.
pub open spec fn divides_by(f: FuncView, l: LoopView, inst: InstView, v: ValueId) -> bool {
    match inst.kind {
        KindView::Binary { op: BinaryOp::Idiv, lhs: _, rhs } => rhs == v && !patterns::defined_in(
            f,
            v,
            l.blocks,
        ) && !(f.value(v).kind is Const),
        _ => false,
    }
}

/// The loop divides by the value.
pub open spec fn loop_divides_by(f: FuncView, l: LoopView, v: ValueId) -> bool {
    exists|b: BlockId, i: int|
        l.has(b) && f.has_inst(b, i) && divides_by(f, l, #[trigger] f.inst(b, i), v)
}

/// The candidate describes loop `l`.
pub open spec fn candidate_matches(f: FuncView, l: LoopView, c: Candidate) -> bool {
    &&& l.dedicated_preheader == Some(c.preheader)
    &&& l.exit_edges.len() == 1
    &&& l.exit_edges[0] == (c.exit_pred, c.exit)
    &&& l.header == c.header
    &&& l.blocks.len() <= MAX_LOOP_BLOCKS
    &&& inst_count(f, l.blocks, l.blocks.len() as int) <= MAX_LOOP_INSTRUCTIONS
    &&& f.terminator(c.preheader) == Some(Terminator::Jump(c.header))
    &&& !has_live_out(f, l, c.exit_pred, c.exit)
    &&& loop_divides_by(f, l, c.divisor)
    &&& forall|v: ValueId| #[trigger] loop_divides_by(f, l, v) ==> v == c.divisor
}

pub open spec fn candidate_of(f: FuncView, l: LoopView) -> Option<Candidate> {
    if exists|c: Candidate| candidate_matches(f, l, c) {
        Some(choose|c: Candidate| candidate_matches(f, l, c))
    } else {
        None
    }
}

pub proof fn lemma_candidate_unique(f: FuncView, l: LoopView, c: Candidate, d: Candidate)
    requires
        candidate_matches(f, l, c),
        candidate_matches(f, l, d),
    ensures
        c == d,
{
}

/// The first candidate from place `k` of the order on, and the place.
pub open spec fn first_candidate(f: FuncView, list: Seq<LoopView>, order: Seq<usize>, k: int) -> Option<
    (LoopView, Candidate),
>
    decreases order.len() - k,
{
    if k < 0 || k >= order.len() {
        None
    } else {
        let l = list[order[k] as int];
        match candidate_of(f, l) {
            Some(c) => Some((l, c)),
            None => first_candidate(f, list, order, k + 1),
        }
    }
}

/// The candidate of the smallest loop that has one.
pub open spec fn chosen(f: FuncView) -> Option<(LoopView, Candidate)> {
    let list = loops::loops_of(f);
    first_candidate(f, list, loops::size_order(list, true), 0)
}

/// The instruction with the divisor replaced.
pub open spec fn specialized_inst(inst: InstView, divisor: ValueId, w: ValueId) -> InstView {
    match inst.kind {
        KindView::Binary { op: BinaryOp::Idiv, lhs, rhs } => if rhs == divisor {
            InstView { kind: KindView::Binary { op: BinaryOp::Idiv, lhs, rhs: w }, ..inst }
        } else {
            inst
        },
        _ => inst,
    }
}

/// The function with the divisor replaced in `n` blocks from `base` on.
pub open spec fn specialized(f: FuncView, divisor: ValueId, w: ValueId, base: nat, n: int) -> FuncView
    decreases n,
{
    if n <= 0 {
        f
    } else {
        let before = specialized(f, divisor, w, base, n - 1);
        let b = BlockId((base + (n - 1)) as usize);
        before.with_insts(
            b,
            before.block(b).insts.map_values(
                |inst: InstView| specialized_inst(inst, divisor, w),
            ),
        )
    }
}

/// The entries from `pred` among the first `n`, as taken from its copy.
pub open spec fn copied_entries(
    incomings: Seq<(BlockId, ValueId)>,
    pred: BlockId,
    copy: BlockId,
    map: Map<ValueId, ValueId>,
    n: int,
) -> Seq<(BlockId, ValueId)>
    decreases n,
{
    if n <= 0 {
        Seq::empty()
    } else {
        let before = copied_entries(incomings, pred, copy, map, n - 1);
        if incomings[n - 1].0 == pred {
            before.push((copy, util::resolve(map, incomings[n - 1].1, 1)))
        } else {
            before
        }
    }
}

/// The instructions with the leading phis, from place `k` on, taking from the
/// copy too.
pub open spec fn extended(
    insts: Seq<InstView>,
    pred: BlockId,
    copy: BlockId,
    map: Map<ValueId, ValueId>,
    k: int,
) -> Seq<InstView>
    decreases insts.len() - k,
{
    if k < 0 || k >= insts.len() {
        insts
    } else {
        match insts[k].kind {
            KindView::Phi { incomings } => extended(
                insts.update(
                    k,
                    InstView {
                        kind: KindView::Phi {
                            incomings: incomings + copied_entries(
                                incomings,
                                pred,
                                copy,
                                map,
                                incomings.len() as int,
                            ),
                        },
                        ..insts[k]
                    },
                ),
                pred,
                copy,
                map,
                k + 1,
            ),
            _ => insts,
        }
    }
}

/// The function with the loop versioned.
pub open spec fn versioned(f: FuncView, l: LoopView, c: Candidate) -> FuncView {
    let base = f.blocks.len();
    let map = region::copy_map(f, l.blocks, "div.specialized"@);
    let f1 = region::with_copy(f, l.blocks, "div.specialized"@);
    let three = util::const_value(f1, Const::Int(SPECIALIZED_DIVISOR));
    let f2 = util::with_const(f1, Const::Int(SPECIALIZED_DIVISOR));
    let f3 = specialized(f2, c.divisor, three, base, l.blocks.len() as int);
    let f4 = f3.with_insts(
        c.exit,
        extended(
            f3.block(c.exit).insts,
            c.exit_pred,
            region::copy_of(l.blocks, base, c.exit_pred),
            map,
            0,
        ),
    );
    let cond = f4.next_value();
    patterns::with_comparison(
        f4,
        c.preheader,
        CompareOp::Eq,
        c.divisor,
        three,
    ).with_terminator(
        c.preheader,
        Some(
            Terminator::Branch {
                cond,
                then_target: region::copy_of(l.blocks, base, c.header),
                else_target: c.header,
            },
        ),
    )
}

/// The effect on one function. A result that would not be valid is discarded.
pub open spec fn specialized_function(f: FuncView) -> FuncView {
    match chosen(f) {
        Some((l, c)) => if verify::valid(versioned(f, l, c)) {
            versioned(f, l, c)
        } else {
            f
        },
        None => f,
    }
}

pub open spec fn specialized_module(m: ModuleView) -> ModuleView {
    ModuleView { funcs: m.funcs.map_values(|f: FuncView| specialized_function(f)), ..m }
}

// ---------------------------------------------------------------------------
// Laws
// ---------------------------------------------------------------------------

/// The pass keeps functions valid.
pub proof fn specialization_keeps_validity(f: FuncView)
    requires
        verify::valid(f),
    ensures
        verify::valid(specialized_function(f)),
{
}

/// What the operands of an operation stand for.
pub open spec fn quotient(env: spec_fn(ValueId) -> int, inst: InstView) -> Option<int> {
    match inst.kind {
        KindView::Binary { op: BinaryOp::Idiv, lhs, rhs } => Some(env(lhs) / env(rhs)),
        _ => None,
    }
}

/// Under the guard, dividing by the constant is dividing by the divisor.
pub proof fn specialized_division_is_the_division(
    env: spec_fn(ValueId) -> int,
    inst: InstView,
    divisor: ValueId,
    w: ValueId,
)
    requires
        env(w) == SPECIALIZED_DIVISOR,
        env(divisor) == env(w),
    ensures
        quotient(env, specialized_inst(inst, divisor, w)) == quotient(env, inst),
{
}

/// The loop itself stays: every block keeps what it computes, and only the
/// preheader and the phis of the exit change.
pub proof fn the_loop_stays(f: FuncView, l: LoopView, c: Candidate, b: BlockId)
    requires
        f.wf(),
        f.blocks.len() + l.blocks.len() <= usize::MAX,
        candidate_matches(f, l, c),
        l.within(f.blocks.len()),
        f.has_block(b),
        b != c.preheader,
        b != c.exit,
    ensures
        versioned(f, l, c).block(b) == f.block(b),
{
    let base = f.blocks.len();
    let n = l.blocks.len() as int;
    let name = "div.specialized"@;
    let f1 = region::with_copy(f, l.blocks, name);
    region::lemma_copy_keeps(f, l.blocks, name, b);
    let three = util::const_value(f1, Const::Int(SPECIALIZED_DIVISOR));
    let f2 = util::with_const(f1, Const::Int(SPECIALIZED_DIVISOR));
    assert(f2.block(b) == f1.block(b));
    lemma_specialized_keeps(f2, c.divisor, three, base, n, b);
    assert(l.exit_edges[0].1.0 < f.blocks.len());
}

proof fn lemma_specialized_keeps(
    f: FuncView,
    divisor: ValueId,
    w: ValueId,
    base: nat,
    n: int,
    b: BlockId,
)
    requires
        b.0 < base,
        f.blocks.len() == base + n,
        base + n <= usize::MAX,
    ensures
        specialized(f, divisor, w, base, n).block(b) == f.block(b),
        specialized(f, divisor, w, base, n).blocks.len() == f.blocks.len(),
    decreases n,
{
    lemma_specialized_upto(f, divisor, w, base, n, b);
}

proof fn lemma_specialized_upto(
    f: FuncView,
    divisor: ValueId,
    w: ValueId,
    base: nat,
    n: int,
    b: BlockId,
)
    requires
        b.0 < base,
        f.blocks.len() >= base + n,
        base + n <= usize::MAX,
    ensures
        specialized(f, divisor, w, base, n).block(b) == f.block(b),
        specialized(f, divisor, w, base, n).blocks.len() == f.blocks.len(),
    decreases n,
{
    if n > 0 {
        lemma_specialized_upto(f, divisor, w, base, n - 1, b);
    }
}

// ---------------------------------------------------------------------------
// Executable recognition
// ---------------------------------------------------------------------------

fn few_instructions(func: &Function, l: &NaturalLoop) -> (r: bool)
    requires
        l@.within(func@.blocks.len()),
        l.blocks.len() <= MAX_LOOP_BLOCKS,
    ensures
        r == (inst_count(func@, l@.blocks, l@.blocks.len() as int) <= MAX_LOOP_INSTRUCTIONS),
{
    let mut total: u128 = 0;
    let n = l.blocks.len();
    for k in 0..n
        invariant
            l@.within(func@.blocks.len()),
            n == l.blocks.len(),
            n <= MAX_LOOP_BLOCKS,
            total == inst_count(func@, l@.blocks, k as int),
            total <= k * usize::MAX,
    {
        let b = l.blocks[k];
        assert(l@.blocks[k as int].0 < func@.blocks.len());
        total = total + func.blocks[b.0].insts.len() as u128;
    }
    total <= MAX_LOOP_INSTRUCTIONS as u128
}

fn takes_only_marked(marks: &Vec<bool>, exit_pred: BlockId, incomings: &Vec<(BlockId, ValueId)>) -> (r:
    bool)
    ensures
        r == takes_marked(marks@, exit_pred, incomings@),
{
    let n = incomings.len();
    for k in 0..n
        invariant
            n == incomings.len(),
            forall|j: int|
                0 <= j < k ==> (#[trigger] incomings@[j]).0 != exit_pred || flow::marked(
                    marks@,
                    incomings@[j].1,
                ),
    {
        if incomings[k].0 == exit_pred && !is_marked(marks, incomings[k].1) {
            assert(incomings@[k as int].0 == exit_pred);
            return false;
        }
    }
    true
}

fn instruction_escapes(marks: &Vec<bool>, exit_pred: BlockId, at_exit: bool, inst: &Inst) -> (r:
    bool)
    requires
        edit::reads_wf(edit::operands(inst@.kind), marks.len() as nat),
    ensures
        r == escapes(marks@, exit_pred, at_exit, inst@),
{
    if at_exit {
        if let InstKind::Phi { incomings } = &inst.kind {
            if takes_only_marked(marks, exit_pred, incomings) {
                return false;
            }
        }
    }
    let list = inst_operands(&inst.kind);
    any_marked(marks, &list)
}

#[verifier::loop_isolation(false)]
fn has_unsupported_live_out(func: &Function, l: &NaturalLoop, exit_pred: BlockId, exit: BlockId) -> (r:
    bool)
    requires
        func@.wf(),
        l@.within(func@.blocks.len()),
    ensures
        r == has_live_out(func@, l@, exit_pred, exit),
{
    let ghost f = func@;
    assert forall|k: int| 0 <= k < l.blocks.len() implies f.has_block(#[trigger] l.blocks@[k]) by {
        assert(l@.blocks[k].0 < f.blocks.len());
    }
    let marks = mark_defined(func, &l.blocks);
    let n = func.blocks.len();
    for x in 0..n
        invariant
            n == f.blocks.len(),
            forall|b: BlockId, i: int|
                b.0 < x && !l@.has(b) && f.has_inst(b, i) ==> !escapes(
                    marks@,
                    exit_pred,
                    b == exit,
                    #[trigger] f.inst(b, i),
                ),
            forall|b: BlockId|
                b.0 < x && !l@.has(b) ==> !flow::some_marked(
                    marks@,
                    edit::terminator_reads(#[trigger] f.terminator(b)),
                ),
    {
        let b = BlockId(x);
        assert(f.has_block(b));
        if !l.contains(b) {
            let m = func.blocks[x].insts.len();
            for i in 0..m
                invariant
                    m == f.block(b).insts.len(),
                    forall|j: int|
                        0 <= j < i ==> !escapes(
                            marks@,
                            exit_pred,
                            b == exit,
                            #[trigger] f.inst(b, j),
                        ),
            {
                let inst = &func.blocks[x].insts[i];
                assert(inst@ == f.inst(b, i as int));
                proof {
                    query::lemma_inst_wf(f, b, i as int);
                    verify::lemma_kind_wf_operands(inst@.kind, f.blocks.len(), f.values.len());
                }
                if instruction_escapes(&marks, exit_pred, b == exit, inst) {
                    assert(escapes(marks@, exit_pred, b == exit, f.inst(b, i as int)));
                    return true;
                }
            }
            proof {
                query::lemma_terminator_wf(f, b);
            }
            let list = terminator_operands(&func.blocks[x].terminator);
            if any_marked(&marks, &list) {
                assert(flow::some_marked(marks@, edit::terminator_reads(f.terminator(b))));
                return true;
            }
        }
    }
    assert forall|b: BlockId| !l@.has(b) && f.has_block(b) implies !flow::some_marked(
        marks@,
        edit::terminator_reads(#[trigger] f.terminator(b)),
    ) by {}
    false
}

/// The value that an instruction divides by, if it is fixed before the loop
/// and no constant.
fn divisor_of(func: &Function, l: &NaturalLoop, inst: &Inst) -> (r: Option<ValueId>)
    requires
        func@.wf(),
        edit::inst_wf(inst@, func@.blocks.len(), func@.values.len()),
    ensures
        match r {
            Some(v) => divides_by(func@, l@, inst@, v) && func@.has_value(v),
            None => forall|v: ValueId| !(#[trigger] divides_by(func@, l@, inst@, v)),
        },
{
    if let InstKind::Binary { op: BinaryOp::Idiv, lhs: _, rhs } = &inst.kind {
        let v = *rhs;
        let constant = match func.values[v.0].kind {
            ValueKind::Const(_) => true,
            _ => false,
        };
        assert(func.values@[v.0 as int]@ == func@.value(v));
        if !constant && !is_defined_in(func, v, &l.blocks) {
            return Some(v);
        }
    }
    None
}

/// The only value that the loop divides by.
#[verifier::loop_isolation(false)]
fn only_divisor(func: &Function, l: &NaturalLoop) -> (r: Option<ValueId>)
    requires
        func@.wf(),
        l@.within(func@.blocks.len()),
    ensures
        match r {
            Some(v) => loop_divides_by(func@, l@, v) && func@.has_value(v) && forall|w: ValueId|
                #[trigger]
                loop_divides_by(func@, l@, w) ==> w == v,
            None => forall|v: ValueId| #[trigger]
                loop_divides_by(func@, l@, v) ==> exists|w: ValueId| #[trigger]
                    loop_divides_by(func@, l@, w) && w != v,
        },
{
    let ghost f = func@;
    let mut found: Option<ValueId> = None;
    let n = l.blocks.len();
    for x in 0..n
        invariant
            match found {
                Some(v) => loop_divides_by(f, l@, v) && f.has_value(v),
                None => true,
            },
            forall|j: int, i: int, v: ValueId|
                0 <= j < x && f.has_inst(l@.blocks[j], i) && #[trigger] divides_by(
                    f,
                    l@,
                    f.inst(l@.blocks[j], i),
                    v,
                ) ==> found == Some(v),
    {
        let b = l.blocks[x];
        assert(l@.blocks[x as int].0 < f.blocks.len());
        assert(l@.has(b));
        let m = func.blocks[b.0].insts.len();
        for i in 0..m
            invariant
                m == f.block(b).insts.len(),
                match found {
                    Some(v) => loop_divides_by(f, l@, v) && f.has_value(v),
                    None => true,
                },
                forall|j: int, i: int, v: ValueId|
                    0 <= j < x && f.has_inst(l@.blocks[j], i) && #[trigger] divides_by(
                        f,
                        l@,
                        f.inst(l@.blocks[j], i),
                        v,
                    ) ==> found == Some(v),
                forall|j: int, v: ValueId|
                    0 <= j < i && #[trigger] divides_by(f, l@, f.inst(b, j), v) ==> found == Some(
                        v,
                    ),
        {
            let inst = &func.blocks[b.0].insts[i];
            assert(inst@ == f.inst(b, i as int));
            proof {
                query::lemma_inst_wf(f, b, i as int);
            }
            if let Some(v) = divisor_of(func, l, inst) {
                assert(loop_divides_by(f, l@, v));
                match found {
                    Some(w) => if w != v {
                        assert forall|u: ValueId| #[trigger] loop_divides_by(
                            f,
                            l@,
                            u,
                        ) implies exists|w: ValueId| #[trigger]
                            loop_divides_by(f, l@, w) && w != u by {
                            if u == v {
                                assert(loop_divides_by(f, l@, w));
                            } else {
                                assert(loop_divides_by(f, l@, v));
                            }
                        }
                        return None;
                    },
                    None => {
                        found = Some(v);
                    },
                }
            }
        }
    }
    assert forall|v: ValueId| #[trigger] loop_divides_by(f, l@, v) implies found == Some(v) by {
        let (b, i) = choose|b: BlockId, i: int|
            l@.has(b) && f.has_inst(b, i) && divides_by(f, l@, #[trigger] f.inst(b, i), v);
        let j = choose|j: int| 0 <= j < l@.blocks.len() && l@.blocks[j] == b;
        assert(divides_by(f, l@, f.inst(l@.blocks[j], i), v));
    }
    found
}

/// The candidate of one loop.
fn match_candidate(func: &Function, l: &NaturalLoop) -> (r: Option<Candidate>)
    requires
        func@.wf(),
        l@.within(func@.blocks.len()),
    ensures
        r == candidate_of(func@, l@),
        r matches Some(c) ==> candidate_matches(func@, l@, c) && func@.has_value(c.divisor),
{
    let ghost f = func@;
    let preheader = l.dedicated_preheader?;
    if l.exit_edges.len() != 1 {
        return None;
    }
    let exit_pred = l.exit_edges[0].0;
    let exit = l.exit_edges[0].1;
    if l.blocks.len() > MAX_LOOP_BLOCKS || !few_instructions(func, l) {
        return None;
    }
    match func.blocks[preheader.0].terminator {
        Some(Terminator::Jump(target)) => if target != l.header {
            return None;
        },
        _ => return None,
    }
    if has_unsupported_live_out(func, l, exit_pred, exit) {
        return None;
    }
    let divisor = only_divisor(func, l)?;
    let c = Candidate { preheader, header: l.header, exit_pred, exit, divisor };
    proof {
        assert(candidate_matches(f, l@, c));
        lemma_candidate_unique(f, l@, c, candidate_of(f, l@)->0);
    }
    Some(c)
}

// ---------------------------------------------------------------------------
// Executable rewriting
// ---------------------------------------------------------------------------

fn specialize_inst(inst: &Inst, divisor: ValueId, w: ValueId) -> (r: Inst)
    ensures
        r@ == specialized_inst(inst@, divisor, w),
{
    if let InstKind::Binary { op: BinaryOp::Idiv, lhs, rhs } = &inst.kind {
        if *rhs == divisor {
            return Inst {
                result: inst.result,
                kind: InstKind::Binary { op: BinaryOp::Idiv, lhs: *lhs, rhs: w },
            };
        }
    }
    inst.clone()
}

#[verifier::loop_isolation(false)]
fn specialize_blocks(func: &mut Function, divisor: ValueId, w: ValueId, base: usize, n: usize)
    requires
        base + n <= old(func)@.blocks.len(),
    ensures
        final(func)@ == specialized(old(func)@, divisor, w, base as nat, n as int),
        final(func)@.blocks.len() == old(func)@.blocks.len(),
        final(func)@.values == old(func)@.values,
        forall|b: int|
            0 <= b < base ==> #[trigger] final(func)@.blocks[b] == old(func)@.blocks[b],
{
    let ghost f = func@;
    assert(func.blocks.len() == func@.blocks.len());
    for x in 0..n
        invariant
            func@ == specialized(f, divisor, w, base as nat, x as int),
            func@.blocks.len() == f.blocks.len(),
            func@.values == f.values,
            forall|b: int| 0 <= b < base ==> #[trigger] func@.blocks[b] == f.blocks[b],
    {
        let b = BlockId(base + x);
        let ghost insts = func@.block(b).insts;
        let m = func.blocks[b.0].insts.len();
        let mut r: Vec<Inst> = Vec::new();
        for i in 0..m
            invariant
                m == insts.len(),
                insts == func@.block(b).insts,
                r.len() == i,
                forall|j: int|
                    0 <= j < i ==> #[trigger] r@[j]@ == specialized_inst(insts[j], divisor, w),
        {
            let inst = &func.blocks[b.0].insts[i];
            assert(inst@ == insts[i as int]);
            r.push(specialize_inst(inst, divisor, w));
        }
        assert(ir::insts_view(r@) =~= insts.map_values(
            |inst: InstView| specialized_inst(inst, divisor, w),
        ));
        func.set_insts(b, r);
    }
}

fn copy_entries(
    incomings: &Vec<(BlockId, ValueId)>,
    pred: BlockId,
    copy: BlockId,
    map: &ValueMap,
) -> (r: Vec<(BlockId, ValueId)>)
    ensures
        r@ == incomings@ + copied_entries(incomings@, pred, copy, map@, incomings.len() as int),
{
    let mut r = ir::clone_incomings(incomings);
    let ghost own = r@;
    let n = incomings.len();
    for k in 0..n
        invariant
            n == incomings.len(),
            own == incomings@,
            r@ == own + copied_entries(incomings@, pred, copy, map@, k as int),
    {
        let (p, v) = incomings[k];
        if p == pred {
            let ghost before = copied_entries(incomings@, pred, copy, map@, k as int);
            let w = map.resolve(v, 1);
            r.push((copy, w));
            assert(own + before.push((copy, w)) =~= (own + before).push((copy, w)));
        }
    }
    r
}

#[verifier::loop_isolation(false)]
fn extend_phis(func: &mut Function, exit: BlockId, pred: BlockId, copy: BlockId, map: &ValueMap)
    requires
        old(func)@.has_block(exit),
    ensures
        final(func)@ == old(func)@.with_insts(
            exit,
            extended(old(func)@.block(exit).insts, pred, copy, map@, 0),
        ),
        final(func)@.blocks.len() == old(func)@.blocks.len(),
        final(func)@.values == old(func)@.values,
{
    let ghost f = func@;
    let ghost insts = f.block(exit).insts;
    let ghost want = extended(insts, pred, copy, map@, 0);
    let n = func.blocks[exit.0].insts.len();
    let mut k: usize = 0;
    assert(func@ =~= f.with_insts(exit, func@.block(exit).insts)) by {
        assert(f.blocks =~= f.with_insts(exit, f.block(exit).insts).blocks);
    }
    while k < n
        invariant
            k <= n,
            n == insts.len(),
            func@ == f.with_insts(exit, func@.block(exit).insts),
            func@.has_block(exit),
            func@.block(exit).insts.len() == n,
            extended(func@.block(exit).insts, pred, copy, map@, k as int) == want,
        decreases n - k,
    {
        assert(func.blocks@[exit.0 as int]@ == func@.block(exit));
        let inst = &func.blocks[exit.0].insts[k];
        assert(inst@ == func@.inst(exit, k as int));
        if let InstKind::Phi { incomings } = &inst.kind {
            let list = copy_entries(incomings, pred, copy, map);
            let result = inst.result;
            let ghost before = func@;
            func.set_inst(exit, k, Inst { result, kind: InstKind::Phi { incomings: list } });
            assert(func@.blocks =~= f.with_insts(exit, func@.block(exit).insts).blocks);
            k = k + 1;
        } else {
            return ;
        }
    }
}

#[verifier::loop_isolation(false)]
fn apply_candidate(func: &mut Function, l: &NaturalLoop, c: Candidate)
    requires
        old(func)@.wf(),
        l@.within(old(func)@.blocks.len()),
        candidate_matches(old(func)@, l@, c),
    ensures
        final(func)@ == versioned(old(func)@, l@, c),
{
    let ghost f = func@;
    let base = func.blocks.len();
    let n = l.blocks.len();
    proof {
        assert(l@.exit_edges[0].1.0 < f.blocks.len());
        assert forall|k: int| 0 <= k < l.blocks.len() implies f.has_block(
            #[trigger] l.blocks@[k],
        ) by {
            assert(l@.blocks[k].0 < f.blocks.len());
        }
    }
    let map = copy_region(func, &l.blocks, "div.specialized");
    assert(func.blocks.len() == func@.blocks.len());
    let three = get_or_add_i32_const(func, SPECIALIZED_DIVISOR);
    assert(func@.blocks.len() == base + n);
    specialize_blocks(func, c.divisor, three, base, n);
    let copy = copied_block(&l.blocks, base, c.exit_pred);
    extend_phis(func, c.exit, c.exit_pred, copy, &map);
    let cond = append_comparison(func, c.preheader, CompareOp::Eq, c.divisor, three);
    func.put_terminator(
        c.preheader,
        Some(
            Terminator::Branch {
                cond,
                then_target: copied_block(&l.blocks, base, c.header),
                else_target: c.header,
            },
        ),
    );
}

/// Versions the smallest fitting loop of a function.
pub fn specialize_function(func: &mut Function)
    requires
        old(func)@.wf(),
    ensures
        final(func)@ == specialized_function(old(func)@),
        final(func)@.wf(),
{
    let ghost f = func@;
    assert(func.blocks.len() == func@.blocks.len());
    let graph = ControlFlowGraph::new(func);
    let dom = Dominators::new(func, &graph);
    let info = LoopInfo::new(func, &graph, &dom);
    let list = info.loops();
    let order = order_by_size(list, true);
    let ghost views = loops::loops_of(f);
    let n = order.len();
    for k in 0..n
        invariant
            n == order.len(),
            func@ == f,
            f.wf(),
            f.blocks.len() <= usize::MAX,
            views == loops::loops_of(f),
            views == loops::loops_view(list@),
            order@ == loops::size_order(views, true),
            forall|j: int| 0 <= j < order.len() ==> #[trigger] order@[j] < list.len(),
            chosen(f) == first_candidate(f, views, order@, k as int),
            f == old(func)@,
    {
        let l = &list[order[k]];
        proof {
            assert(views[order@[k as int] as int] == l@);
            loops::lemma_listed_loop(f, order@[k as int] as int);
        }
        if let Some(c) = match_candidate(func, l) {
            let before = func.clone();
            apply_candidate(func, l, c);
            if func.verify().is_err() {
                *func = before;
            }
            return ;
        }
    }
}

/// The pass over all functions of a module.
pub struct LoopDivisionSpecializePass;

impl LoopDivisionSpecializePass {
    pub fn new() -> (r: Self) {
        LoopDivisionSpecializePass
    }

    /// Versions one loop of every function.
    pub fn run(&self, module: &mut Module)
        requires
            old(module)@.wf(),
        ensures
            final(module)@ == specialized_module(old(module)@),
            final(module)@.wf(),
    {
        let ghost m = module@;
        let ghost want = specialized_module(m);
        let n = module.funcs.len();
        for k in 0..n
            invariant
                n == module.funcs.len(),
                n == m.funcs.len(),
                m.wf(),
                module@ == (ModuleView { funcs: module@.funcs, ..m }),
                want == specialized_module(m),
                forall|j: int|
                    0 <= j < k ==> #[trigger] module@.funcs[j] == want.funcs[j]
                        && module@.funcs[j].wf(),
                forall|j: int| k <= j < n ==> #[trigger] module@.funcs[j] == m.funcs[j],
        {
            assert(module@.funcs[k as int] == m.funcs[k as int]);
            let ghost before = module@.funcs;
            specialize_function(&mut module.funcs[k]);
            assert(module@.funcs =~= before.update(k as int, module.funcs@[k as int]@));
        }
        assert(module@.funcs =~= want.funcs);
    }
}

} // verus!
