//! Unrolling of small counted loops.
//!
//! A loop with a single block besides its header gets a copy before it that
//! runs two rounds at once. The copy runs while two rounds are left; the loop
//! itself runs what is left, so all rounds run in their order.
use vstd::prelude::*;

use crate::cfg;
use crate::cfg::{ControlFlowGraph, Dominators};
use crate::edit;
use crate::edit::{inst_operands, terminator_operands};
use crate::emit;
use crate::emit::{
    emit, emit_binary, emit_comparison, emit_effect, emit_phi, end_branch, end_jump, extend_phi,
    new_block, set_phi,
};
use crate::ir::{
    BinaryOp, BlockId, CompareOp, Const, FuncView, Function, Inst, InstKind, InstView, KindView,
    Module, ModuleView, Terminator, Type, ValueId, ValueKind, ValueKindView,
};
use crate::loops;
use crate::loops::{analyze_i32_induction, LoopInfo, LoopView, NaturalLoop};
use crate::names;
use crate::names::numbered;
use crate::pass::loop_idiom;
use crate::pass::loop_idiom::int_literal;
use crate::pass::reduction_jam::shape;
use crate::patterns;
use crate::patterns::as_branch;
use crate::query;
use crate::query::{active_insts, has_type, jump_target, only_pred, value_available_at_block};
use crate::util;
use crate::util::{get_or_add_i32_const, resolve_kind, ValueMap};
use crate::verify;
use crate::verify::contains_block;

verus! {

pub const UNROLL_FACTOR: usize = 2;

pub const MAX_BLOCKS: usize = 1024;

pub const MAX_VALUES: usize = 8192;

pub const MAX_ACTIVE_BODY_INSTS: usize = 16;

pub const MAX_CLONED_INSTS_PER_FUNCTION: usize = 256;

/// A loop to unroll.
#[derive(Clone, Copy, PartialEq, Eq, Structural)]
pub struct Candidate {
    pub preheader: BlockId,
    pub header: BlockId,
    pub body: BlockId,
    pub counter: ValueId,
    pub initial: ValueId,
    pub next: ValueId,
    pub bound: ValueId,
    pub size: usize,
}

// ---------------------------------------------------------------------------
// Mathematical model: recognition
// ---------------------------------------------------------------------------

/// What the header of a loop holds: the phi, and the parts of the comparison.
#[derive(Clone, Copy)]
pub struct Header {
    pub phi: Option<ValueId>,
    pub condition: Option<(ValueId, ValueId)>,
}

/// What the header holds from place `k` on, behind what was found; nothing where
/// it holds anything but one phi and the comparison.
pub open spec fn header_from(insts: Seq<InstView>, cond: ValueId, h: Header, k: int) -> Option<
    Header,
>
    decreases insts.len() - k,
{
    if k < 0 || k >= insts.len() {
        Some(h)
    } else {
        match insts[k].kind {
            KindView::Nop => header_from(insts, cond, h, k + 1),
            KindView::Phi { .. } => if h.phi is None && insts[k].result is Some {
                header_from(insts, cond, Header { phi: insts[k].result, ..h }, k + 1)
            } else {
                None
            },
            KindView::ICompare { op: CompareOp::Lt, lhs, rhs } => if insts[k].result == Some(cond)
                && h.condition is None {
                header_from(insts, cond, Header { condition: Some((lhs, rhs)), ..h }, k + 1)
            } else {
                None
            },
            _ => None,
        }
    }
}

/// The counter and the bound of a header.
pub open spec fn header_of(f: FuncView, b: BlockId, cond: ValueId) -> Option<(ValueId, ValueId)> {
    match header_from(f.block(b).insts, cond, (Header { phi: None, condition: None }), 0) {
        Some(h) => match (h.phi, h.condition) {
            (Some(phi), Some((counter, bound))) => if phi == counter && f.value(counter).ty
                == Type::I32 && f.value(bound).ty == Type::I32 && f.value(cond).ty == Type::I1 {
                Some((counter, bound))
            } else {
                None
            },
            _ => None,
        },
        None => None,
    }
}

/// The blocks are those of a loop with one block besides its header.
pub open spec fn blocks_fit(
    f: FuncView,
    l: LoopView,
    preheader: BlockId,
    body: BlockId,
    exit: BlockId,
) -> bool {
    let preds = cfg::preds(f, l.header);
    &&& body != l.header
    &&& exit != l.header
    &&& body != exit
    &&& l.unique_exit() == Some(exit)
    &&& query::jump_of(f, body) == Some(l.header)
    &&& cfg::preds(f, body) == seq![l.header]
    &&& preds.len() == 2
    &&& preds.contains(body)
    &&& preds.contains(preheader)
    &&& query::jump_of(f, preheader) == Some(l.header)
}

/// The instruction can be copied.
pub open spec fn is_copied(inst: InstView) -> bool {
    match inst.kind {
        KindView::Nop => true,
        KindView::Store { .. } => true,
        KindView::Load { .. } => inst.result is Some,
        KindView::Unary { .. } => inst.result is Some,
        KindView::Binary { .. } => inst.result is Some,
        KindView::ICompare { .. } => inst.result is Some,
        KindView::FCompare { .. } => inst.result is Some,
        KindView::Cast { .. } => inst.result is Some,
        KindView::Gep { .. } => inst.result is Some,
        _ => false,
    }
}

/// The operand can be had in the copy: what the body defines must come before,
/// and of the header only the counter is read.
pub open spec fn operand_fits(
    f: FuncView,
    c: Candidate,
    i: int,
    v: ValueId,
) -> bool {
    match f.value(v).kind {
        ValueKindView::Inst(b, _) => !(b == c.body && !shape::defined_before(f, c.body, i, v)) && !(b
            == c.header && v != c.counter),
        _ => true,
    }
}

/// The instruction of the body can be copied.
pub open spec fn inst_fits(f: FuncView, c: Candidate, i: int) -> bool {
    let list = edit::operands(f.inst(c.body, i).kind);
    &&& is_copied(f.inst(c.body, i))
    &&& forall|k: int| 0 <= k < list.len() ==> operand_fits(f, c, i, #[trigger] list[k])
}

/// The value is one that the body defines.
pub open spec fn is_body_value(f: FuncView, c: Candidate, v: ValueId) -> bool {
    shape::defined_before(f, c.body, f.block(c.body).insts.len() as int, v)
}

/// The read of the value by an instruction outside of the body is none that the
/// loop needs.
pub open spec fn leaks(f: FuncView, c: Candidate, b: BlockId, kind: KindView) -> bool {
    match kind {
        KindView::Phi { incomings } => if b == c.header {
            phi_leaks(f, c, incomings)
        } else {
            reads_body_value(f, c, edit::operands(kind))
        },
        _ => reads_body_value(f, c, edit::operands(kind)),
    }
}

/// A phi of the header reads what the body defines, but for the next counter.
pub open spec fn phi_leaks(f: FuncView, c: Candidate, incomings: Seq<(BlockId, ValueId)>) -> bool {
    exists|k: int|
        0 <= k < incomings.len() && is_body_value(f, c, (#[trigger] incomings[k]).1) && !(
        incomings[k].0 == c.body && incomings[k].1 == c.next)
}

pub open spec fn reads_body_value(f: FuncView, c: Candidate, list: Seq<ValueId>) -> bool {
    exists|k: int| 0 <= k < list.len() && is_body_value(f, c, #[trigger] list[k])
}

/// A block reads what the body defines.
pub open spec fn block_leaks(f: FuncView, c: Candidate, b: BlockId) -> bool {
    ||| exists|i: int|
        0 <= i < f.block(b).insts.len() && leaks(f, c, b, (#[trigger] f.inst(b, i)).kind)
    ||| reads_body_value(f, c, edit::terminator_reads(f.terminator(b)))
}

/// What the body defines is read outside of it.
pub open spec fn body_values_escape(f: FuncView, c: Candidate) -> bool {
    exists|b: BlockId| f.has_block(b) && b != c.body && #[trigger] block_leaks(f, c, b)
}

/// The body can be copied.
pub open spec fn body_fits(f: FuncView, c: Candidate) -> bool {
    &&& 0 < c.size <= MAX_ACTIVE_BODY_INSTS
    &&& forall|i: int| 0 <= i < f.block(c.body).insts.len() ==> #[trigger] inst_fits(f, c, i)
    &&& exists|i: int|
        0 <= i < f.block(c.body).insts.len() && (#[trigger] f.inst(c.body, i)).kind is Store
    &&& !body_values_escape(f, c)
}

/// The bound can be had at the preheader.
pub open spec fn bound_fits(f: FuncView, bound: ValueId, preheader: BlockId) -> bool {
    &&& query::available_at(f, bound, preheader)
    &&& f.value(bound).kind is Inst ==> util::def_kind(f, bound) is Some
}

/// The loop as one to unroll.
pub open spec fn candidate_at(f: FuncView, l: LoopView) -> Option<Candidate> {
    match (l.dedicated_preheader, l.unique_latch(), patterns::branch_of(f, l.header)) {
        (Some(preheader), Some(body), Some((cond, t, exit))) => if t == body && blocks_fit(
            f,
            l,
            preheader,
            body,
            exit,
        ) {
            match header_of(f, l.header, cond) {
                Some((counter, bound)) => match loops::induction_of(f, l, counter) {
                    Some(iv) => {
                        let c = Candidate {
                            preheader,
                            header: l.header,
                            body,
                            counter,
                            initial: iv.initial,
                            next: iv.next,
                            bound,
                            size: query::active(f, body).len() as usize,
                        };
                        if loop_idiom::literal_of(f, iv.initial) == Some(0i32) && f.value(
                            iv.initial,
                        ).ty == Type::I32 && iv.step == 1 && util::def_block(f, iv.next) == Some(
                            body,
                        ) && bound_fits(f, bound, preheader) && body_fits(f, c) {
                            Some(c)
                        } else {
                            None
                        }
                    },
                    None => None,
                },
                None => None,
            }
        } else {
            None
        },
        _ => None,
    }
}

/// The loops to unroll among the first `n`.
pub open spec fn candidates_below(f: FuncView, list: Seq<LoopView>, n: int) -> Seq<Candidate>
    decreases n,
{
    if n <= 0 {
        Seq::empty()
    } else {
        match candidate_at(f, list[n - 1]) {
            Some(c) => candidates_below(f, list, n - 1).push(c),
            None => candidates_below(f, list, n - 1),
        }
    }
}

pub open spec fn candidates_of(f: FuncView) -> Seq<Candidate> {
    let list = loops::loops_of(f);
    candidates_below(f, list, list.len() as int)
}

// ---------------------------------------------------------------------------
// Mathematical model: rewriting
// ---------------------------------------------------------------------------

/// A copy of an instruction at the end of the target block.
pub open spec fn inst_copied(
    g: FuncView,
    inst: InstView,
    f: FuncView,
    map: Map<ValueId, ValueId>,
    target: usize,
) -> (FuncView, Map<ValueId, ValueId>) {
    if inst.kind is Nop {
        (f, map)
    } else {
        let kind = util::map_kind(inst.kind, util::resolver(map, 1));
        match inst.result {
            Some(r) => (
                emit::emitted(f, target, kind, g.value(r).ty),
                map.insert(r, f.next_value()),
            ),
            None => (emit::effected(f, target, kind), map),
        }
    }
}

/// A copy of the first `n` instructions of block `b` of `g`.
pub open spec fn insts_copied(
    g: FuncView,
    b: BlockId,
    f: FuncView,
    map: Map<ValueId, ValueId>,
    target: usize,
    n: int,
) -> (FuncView, Map<ValueId, ValueId>)
    decreases n,
{
    if n <= 0 {
        (f, map)
    } else {
        let (f1, map1) = insts_copied(g, b, f, map, target, n - 1);
        inst_copied(g, g.inst(b, n - 1), f1, map1, target)
    }
}

/// A round of the loop at the end of the target block, and the counter behind
/// it.
#[verifier::opaque]
pub open spec fn round_copied(
    g: FuncView,
    c: Candidate,
    f: FuncView,
    counter: ValueId,
    target: usize,
) -> (FuncView, ValueId) {
    let start = Map::empty().insert(c.counter, counter);
    let (f1, map) = insts_copied(
        g,
        c.body,
        f,
        start,
        target,
        g.block(c.body).insts.len() as int,
    );
    (f1, util::apply(map, c.next))
}

/// The function with one loop unrolled; `g` is the function that the loop was
/// found in.
pub open spec fn unrolled(g: FuncView, f: FuncView, c: Candidate) -> FuncView {
    let one = util::const_value(f, Const::Int(1));
    let g1 = util::with_const(f, Const::Int(1));
    let two = util::const_value(g1, Const::Int(2));
    let g2 = util::with_const(g1, Const::Int(2));
    let p = c.preheader.0;
    let cutoff = g2.next_value();
    let g3 = emit::emitted(g2, p, emit::binary(BinaryOp::Isub, c.bound, one), Type::I32);
    let enough = g3.next_value();
    let g4 = emit::emitted(g3, p, emit::comparison(CompareOp::Ge, c.bound, two), Type::I1);
    let header = g4.blocks.len() as usize;
    let number = names::decimal(c.header.0 as nat);
    let g5 = emit::block_added(g4, "unroll2.header."@ + number);
    let body = (g4.blocks.len() + 1) as usize;
    let g6 = emit::block_added(g5, "unroll2.body."@ + number);
    let counter = g6.next_value();
    let g7 = emit::emitted(
        g6,
        header,
        emit::phi(seq![(c.preheader, c.initial), (BlockId(body), c.initial)]),
        Type::I32,
    );
    let again = g7.next_value();
    let g8 = emit::emitted(
        g7,
        header,
        emit::comparison(CompareOp::Lt, counter, cutoff),
        Type::I1,
    );
    let (g9, middle) = round_copied(g, c, g8, counter, body);
    let (g10, last) = round_copied(g, c, g9, middle, body);
    let g11 = emit::ended(g10, p, emit::branch(enough, header, c.header.0));
    let g12 = emit::ended(g11, header, emit::branch(again, body, c.header.0));
    let g13 = emit::ended(g12, body, Terminator::Jump(BlockId(header)));
    let g14 = emit::phi_set(
        g13,
        counter,
        seq![(c.preheader, c.initial), (BlockId(body), last)],
    );
    emit::phi_extended(g14, c.counter, (BlockId(header), counter))
}

/// The function with the first `n` loops unrolled, as far as there is room for
/// their copies, and how many instructions were copied.
pub open spec fn unrolled_below(f: FuncView, list: Seq<Candidate>, n: int) -> (FuncView, nat)
    decreases n,
{
    if n <= 0 {
        (f, 0)
    } else {
        let (g, copied) = unrolled_below(f, list, n - 1);
        let growth = list[n - 1].size as nat * UNROLL_FACTOR as nat;
        if copied + growth > MAX_CLONED_INSTS_PER_FUNCTION {
            (g, copied)
        } else {
            (unrolled(f, g, list[n - 1]), copied + growth)
        }
    }
}

/// The effect on one function. A result that would not be valid is discarded.
pub open spec fn unrolled_function(f: FuncView) -> FuncView {
    if f.blocks.len() > MAX_BLOCKS || f.values.len() > MAX_VALUES {
        f
    } else {
        let list = candidates_of(f);
        let (g, copied) = unrolled_below(f, list, list.len() as int);
        if copied > 0 && verify::valid(g) {
            g
        } else {
            f
        }
    }
}

pub open spec fn unrolled_module(m: ModuleView) -> ModuleView {
    ModuleView { funcs: m.funcs.map_values(|f: FuncView| unrolled_function(f)), ..m }
}

// ---------------------------------------------------------------------------
// Executable functions: recognition
// ---------------------------------------------------------------------------

fn find_header(func: &Function, b: BlockId, cond: ValueId) -> (r: Option<(ValueId, ValueId)>)
    requires
        func@.wf(),
        func@.has_block(b),
        func@.has_value(cond),
    ensures
        r == header_of(func@, b, cond),
        r matches Some((x, y)) ==> func@.has_value(x) && func@.has_value(y),
{
    let ghost insts = func@.block(b).insts;
    let ghost none = Header { phi: None, condition: None };
    let mut phi: Option<ValueId> = None;
    let mut condition: Option<(ValueId, ValueId)> = None;
    let n = func.blocks[b.0].insts.len();
    for k in 0..n
        invariant
            func@.wf(),
            func@.has_block(b),
            insts == func@.block(b).insts,
            n == insts.len(),
            none == (Header { phi: None, condition: None }),
            condition matches Some((x, y)) ==> func@.has_value(x) && func@.has_value(y),
            header_from(insts, cond, none, 0) == header_from(
                insts,
                cond,
                (Header { phi, condition }),
                k as int,
            ),
    {
        let inst = &func.blocks[b.0].insts[k];
        assert(inst@ == func@.inst(b, k as int));
        proof {
            query::lemma_inst_wf(func@, b, k as int);
        }
        match &inst.kind {
            InstKind::Nop => {},
            InstKind::Phi { .. } => {
                if phi.is_some() || inst.result.is_none() {
                    return None;
                }
                phi = inst.result;
            },
            InstKind::ICompare { op, lhs, rhs } => {
                let named = match inst.result {
                    Some(r) => r == cond,
                    None => false,
                };
                let less = match op {
                    CompareOp::Lt => true,
                    _ => false,
                };
                if !less || !named || condition.is_some() {
                    return None;
                }
                condition = Some((*lhs, *rhs));
            },
            _ => {
                return None;
            },
        }
    }
    match (phi, condition) {
        (Some(v), Some((counter, bound))) => {
            if v == counter && has_type(func, counter, &Type::I32) && has_type(
                func,
                bound,
                &Type::I32,
            ) && has_type(func, cond, &Type::I1) {
                Some((counter, bound))
            } else {
                None
            }
        },
        _ => None,
    }
}

fn check_blocks(
    func: &Function,
    graph: &ControlFlowGraph,
    l: &NaturalLoop,
    preheader: BlockId,
    body: BlockId,
    exit: BlockId,
) -> (r: bool)
    requires
        func@.wf(),
        graph.of(func@),
        l@.within(func@.blocks.len()),
        func@.has_block(preheader),
        func@.has_block(body),
    ensures
        r == blocks_fit(func@, l@, preheader, body, exit),
{
    if body == l.header || exit == l.header || body == exit {
        return false;
    }
    match l.unique_exit() {
        Some(e) => if e != exit {
            return false;
        },
        None => return false,
    }
    match (jump_target(func, body), jump_target(func, preheader)) {
        (Some(x), Some(y)) => if x != l.header || y != l.header {
            return false;
        },
        _ => return false,
    }
    if !only_pred(func, graph, body, l.header) {
        return false;
    }
    let preds = query::preds_of(func, graph, l.header);
    preds.len() == 2 && contains_block(preds, body) && contains_block(preds, preheader)
}

fn can_copy(inst: &Inst) -> (r: bool)
    ensures
        r == is_copied(inst@),
{
    match &inst.kind {
        InstKind::Nop => true,
        InstKind::Store { .. } => true,
        InstKind::Load { .. } => inst.result.is_some(),
        InstKind::Unary { .. } => inst.result.is_some(),
        InstKind::Binary { .. } => inst.result.is_some(),
        InstKind::ICompare { .. } => inst.result.is_some(),
        InstKind::FCompare { .. } => inst.result.is_some(),
        InstKind::Cast { .. } => inst.result.is_some(),
        InstKind::Gep { .. } => inst.result.is_some(),
        _ => false,
    }
}

fn defines_before(func: &Function, b: BlockId, i: usize, v: ValueId) -> (r: bool)
    requires
        func@.has_block(b),
        i <= func@.block(b).insts.len(),
    ensures
        r == shape::defined_before(func@, b, i as int, v),
{
    for j in 0..i
        invariant
            func@.has_block(b),
            i <= func@.block(b).insts.len(),
            forall|k: int| 0 <= k < j ==> (#[trigger] func@.inst(b, k)).result != Some(v),
    {
        let inst = &func.blocks[b.0].insts[j];
        assert(inst@ == func@.inst(b, j as int));
        if let Some(r) = inst.result {
            if r == v {
                return true;
            }
        }
    }
    false
}

fn check_inst(func: &Function, c: Candidate, i: usize) -> (r: bool)
    requires
        func@.wf(),
        func@.has_block(c.body),
        i < func@.block(c.body).insts.len(),
    ensures
        r == inst_fits(func@, c, i as int),
{
    let inst = &func.blocks[c.body.0].insts[i];
    assert(inst@ == func@.inst(c.body, i as int));
    proof {
        query::lemma_inst_wf(func@, c.body, i as int);
        verify::lemma_kind_wf_operands(inst@.kind, func@.blocks.len(), func@.values.len());
    }
    if !can_copy(inst) {
        return false;
    }
    let list = inst_operands(&inst.kind);
    let n = list.len();
    for k in 0..n
        invariant
            func@.wf(),
            func@.has_block(c.body),
            i < func@.block(c.body).insts.len(),
            n == list.len(),
            list@ == edit::operands(func@.inst(c.body, i as int).kind),
            edit::reads_wf(list@, func@.values.len()),
            forall|j: int|
                0 <= j < k ==> operand_fits(func@, c, i as int, #[trigger] list@[j]),
    {
        let v = list[k];
        assert(list@[k as int].0 < func@.values.len());
        assert(func.values@[v.0 as int]@ == func@.value(v));
        if let ValueKind::Inst(b, _) = func.values[v.0].kind {
            if (b == c.body && !defines_before(func, c.body, i, v)) || (b == c.header && v
                != c.counter) {
                assert(!operand_fits(func@, c, i as int, list@[k as int]));
                return false;
            }
        }
    }
    true
}

fn is_of_body(func: &Function, c: Candidate, v: ValueId) -> (r: bool)
    requires
        func@.has_block(c.body),
    ensures
        r == is_body_value(func@, c, v),
{
    assert(func.blocks@[c.body.0 as int]@ == func@.block(c.body));
    let n = func.blocks[c.body.0].insts.len();
    defines_before(func, c.body, n, v)
}

fn reads_of_body(func: &Function, c: Candidate, list: &Vec<ValueId>) -> (r: bool)
    requires
        func@.has_block(c.body),
    ensures
        r == reads_body_value(func@, c, list@),
{
    let n = list.len();
    for k in 0..n
        invariant
            func@.has_block(c.body),
            n == list.len(),
            forall|j: int| 0 <= j < k ==> !is_body_value(func@, c, #[trigger] list@[j]),
    {
        if is_of_body(func, c, list[k]) {
            return true;
        }
    }
    false
}

fn inst_leaks(func: &Function, c: Candidate, b: BlockId, kind: &InstKind) -> (r: bool)
    requires
        func@.has_block(c.body),
    ensures
        r == leaks(func@, c, b, kind@),
{
    match kind {
        InstKind::Phi { incomings } => {
            if b == c.header {
                let n = incomings.len();
                for k in 0..n
                    invariant
                        func@.has_block(c.body),
                        n == incomings.len(),
                        kind@ == (KindView::Phi { incomings: incomings@ }),
                        b == c.header,
                        forall|j: int|
                            0 <= j < k ==> !(is_body_value(
                                func@,
                                c,
                                (#[trigger] incomings@[j]).1,
                            ) && !(incomings@[j].0 == c.body && incomings@[j].1 == c.next)),
                {
                    let (p, v) = incomings[k];
                    if is_of_body(func, c, v) && !(p == c.body && v == c.next) {
                        assert(is_body_value(func@, c, incomings@[k as int].1));
                        assert(phi_leaks(func@, c, incomings@));
                        return true;
                    }
                }
                assert(!phi_leaks(func@, c, incomings@));
                return false;
            }
        },
        _ => {},
    }
    let list = inst_operands(kind);
    reads_of_body(func, c, &list)
}

fn check_block_leaks(func: &Function, c: Candidate, b: BlockId) -> (r: bool)
    requires
        func@.has_block(c.body),
        func@.has_block(b),
    ensures
        r == block_leaks(func@, c, b),
{
    assert(func.blocks@[b.0 as int]@ == func@.block(b));
    let n = func.blocks[b.0].insts.len();
    for i in 0..n
        invariant
            func@.has_block(c.body),
            func@.has_block(b),
            n == func@.block(b).insts.len(),
            forall|j: int|
                0 <= j < i ==> !leaks(func@, c, b, (#[trigger] func@.inst(b, j)).kind),
    {
        let inst = &func.blocks[b.0].insts[i];
        assert(inst@ == func@.inst(b, i as int));
        if inst_leaks(func, c, b, &inst.kind) {
            return true;
        }
    }
    let list = terminator_operands(&func.blocks[b.0].terminator);
    reads_of_body(func, c, &list)
}

fn check_escape(func: &Function, c: Candidate) -> (r: bool)
    requires
        func@.has_block(c.body),
    ensures
        r == body_values_escape(func@, c),
{
    let n = func.blocks.len();
    assert(n == func@.blocks.len());
    for b in 0..n
        invariant
            func@.has_block(c.body),
            n == func@.blocks.len(),
            forall|x: BlockId|
                x.0 < b && x != c.body ==> !(#[trigger] block_leaks(func@, c, x)),
    {
        if b != c.body.0 && check_block_leaks(func, c, BlockId(b)) {
            return true;
        }
    }
    false
}

fn check_body(func: &Function, c: Candidate) -> (r: bool)
    requires
        func@.wf(),
        func@.has_block(c.body),
    ensures
        r == body_fits(func@, c),
{
    if c.size == 0 || c.size > MAX_ACTIVE_BODY_INSTS {
        return false;
    }
    let mut has_store = false;
    let n = func.blocks[c.body.0].insts.len();
    assert(n == func@.block(c.body).insts.len());
    for i in 0..n
        invariant
            func@.wf(),
            func@.has_block(c.body),
            n == func@.block(c.body).insts.len(),
            forall|j: int| 0 <= j < i ==> #[trigger] inst_fits(func@, c, j),
            has_store <==> exists|j: int|
                0 <= j < i && (#[trigger] func@.inst(c.body, j)).kind is Store,
    {
        if !check_inst(func, c, i) {
            assert(!inst_fits(func@, c, i as int));
            return false;
        }
        let inst = &func.blocks[c.body.0].insts[i];
        assert(inst@ == func@.inst(c.body, i as int));
        if matches!(inst.kind, InstKind::Store { .. }) {
            has_store = true;
        }
    }
    has_store && !check_escape(func, c)
}

fn check_bound(func: &Function, dom: &Dominators, bound: ValueId, preheader: BlockId) -> (r: bool)
    requires
        func@.wf(),
        dom.of(func@),
        func@.has_value(bound),
        func@.has_block(preheader),
    ensures
        r == bound_fits(func@, bound, preheader),
{
    assert(func.values@[bound.0 as int]@ == func@.value(bound));
    if !value_available_at_block(func, dom, bound, preheader) {
        return false;
    }
    match func.values[bound.0].kind {
        ValueKind::Inst(_, _) => util::defining_inst(func, bound).is_some(),
        _ => true,
    }
}

/// The parts of the candidate exist.
pub open spec fn candidate_in(f: FuncView, c: Candidate) -> bool {
    &&& f.has_block(c.preheader)
    &&& f.has_block(c.header)
    &&& f.has_block(c.body)
    &&& f.has_value(c.counter)
    &&& 0 < c.size <= MAX_ACTIVE_BODY_INSTS
}

fn match_candidate(
    func: &Function,
    graph: &ControlFlowGraph,
    dom: &Dominators,
    l: &NaturalLoop,
) -> (r: Option<Candidate>)
    requires
        func@.wf(),
        graph.of(func@),
        dom.of(func@),
        l@.within(func@.blocks.len()),
    ensures
        r == candidate_at(func@, l@),
        r matches Some(c) ==> candidate_in(func@, c),
{
    let preheader = l.dedicated_preheader?;
    let body = l.unique_latch()?;
    let (cond, t, exit) = as_branch(func, l.header)?;
    assert(func@.has_block(body)) by {
        assert(l@.latches[0] == body);
    }
    if t != body || !check_blocks(func, graph, l, preheader, body, exit) {
        return None;
    }
    proof {
        query::lemma_terminator_wf(func@, l.header);
    }
    let (counter, bound) = find_header(func, l.header, cond)?;
    let iv = analyze_i32_induction(func, l, counter)?;
    proof {
        loops::lemma_induction_wf(func@, l@, counter);
    }
    let starts_at_zero = match int_literal(func, iv.initial) {
        Some(i) => i == 0,
        None => false,
    };
    let in_body = match util::defining_block(func, iv.next) {
        Some(b) => b == body,
        None => false,
    };
    if !starts_at_zero || !has_type(func, iv.initial, &Type::I32) || iv.step != 1 || !in_body
        || !check_bound(func, dom, bound, preheader) {
        return None;
    }
    let size = active_insts(func, body).len();
    let c = Candidate {
        preheader,
        header: l.header,
        body,
        counter,
        initial: iv.initial,
        next: iv.next,
        bound,
        size,
    };
    if check_body(func, c) {
        Some(c)
    } else {
        None
    }
}

fn find_candidates(func: &Function) -> (r: Vec<Candidate>)
    requires
        func@.wf(),
    ensures
        r@ == candidates_of(func@),
        forall|k: int| 0 <= k < r.len() ==> candidate_in(func@, #[trigger] r@[k]),
{
    let ghost f = func@;
    let graph = ControlFlowGraph::new(func);
    let dom = Dominators::new(func, &graph);
    let info = LoopInfo::new(func, &graph, &dom);
    let list = info.loops();
    let ghost views = loops::loops_of(f);
    let mut found: Vec<Candidate> = Vec::new();
    let n = list.len();
    assert(views.len() == n);
    for k in 0..n
        invariant
            func@ == f,
            f.wf(),
            graph.of(f),
            dom.of(f),
            n == list.len(),
            views == loops::loops_of(f),
            views == loops::loops_view(list@),
            views.len() == n,
            found@ == candidates_below(f, views, k as int),
            forall|j: int| 0 <= j < found.len() ==> candidate_in(f, #[trigger] found@[j]),
    {
        assert(views[k as int] == list@[k as int]@);
        proof {
            loops::lemma_listed_loop(f, k as int);
        }
        if let Some(c) = match_candidate(func, &graph, &dom, &list[k]) {
            found.push(c);
        }
    }
    found
}

// ---------------------------------------------------------------------------
// Executable functions: rewriting
// ---------------------------------------------------------------------------

fn copy_inst(
    source: &Function,
    inst: &Inst,
    func: &mut Function,
    map: &mut ValueMap,
    target: usize,
)
    requires
        target < old(func)@.blocks.len(),
        inst@.result matches Some(r) ==> source@.has_value(r),
    ensures
        (final(func)@, final(map)@) == inst_copied(
            source@,
            inst@,
            old(func)@,
            old(map)@,
            target,
        ),
        final(func)@.blocks.len() == old(func)@.blocks.len(),
{
    assert(source.values.len() == source@.values.len());
    if matches!(inst.kind, InstKind::Nop) {
        return ;
    }
    let kind = resolve_kind(&inst.kind, map, 1);
    match inst.result {
        Some(r) => {
            assert(source.values@[r.0 as int]@ == source@.value(r));
            let ty = source.values[r.0].ty.clone();
            let v = emit(func, target, kind, ty);
            map.insert(r, v);
        },
        None => {
            emit_effect(func, target, kind);
        },
    }
}

fn clone_body_lane(
    source: &Function,
    c: Candidate,
    func: &mut Function,
    counter: ValueId,
    target: usize,
) -> (r: ValueId)
    requires
        source@.wf(),
        candidate_in(source@, c),
        target < old(func)@.blocks.len(),
    ensures
        (final(func)@, r) == round_copied(source@, c, old(func)@, counter, target),
        final(func)@.blocks.len() == old(func)@.blocks.len(),
{
    reveal(round_copied);
    let ghost g = source@;
    let ghost f = func@;
    assert(source.values.len() == g.values.len());
    let mut map = ValueMap::new();
    map.insert(c.counter, counter);
    let ghost start = map@;
    let n = source.blocks[c.body.0].insts.len();
    for i in 0..n
        invariant
            g == source@,
            g.wf(),
            g.has_block(c.body),
            n == g.block(c.body).insts.len(),
            target < func@.blocks.len(),
            func@.blocks.len() == f.blocks.len(),
            (func@, map@) == insts_copied(g, c.body, f, start, target, i as int),
    {
        let inst = &source.blocks[c.body.0].insts[i];
        assert(inst@ == g.inst(c.body, i as int));
        proof {
            query::lemma_inst_wf(g, c.body, i as int);
        }
        copy_inst(source, inst, func, &mut map, target);
    }
    map.apply(c.next)
}

fn apply_unroll(source: &Function, func: &mut Function, c: Candidate)
    requires
        source@.wf(),
        candidate_in(source@, c),
        old(func)@.blocks.len() >= source@.blocks.len(),
    ensures
        final(func)@ == unrolled(source@, old(func)@, c),
        final(func)@.blocks.len() >= old(func)@.blocks.len(),
{
    let one = get_or_add_i32_const(func, 1);
    let two = get_or_add_i32_const(func, 2);
    let p = c.preheader.0;
    let cutoff = emit_binary(func, p, BinaryOp::Isub, c.bound, one);
    let enough = emit_comparison(func, p, CompareOp::Ge, c.bound, two);
    let name = numbered("unroll2.header.", c.header.0);
    let header = new_block(func, name.as_str());
    let name = numbered("unroll2.body.", c.header.0);
    let body = new_block(func, name.as_str());
    let incomings = vec![(c.preheader, c.initial), (BlockId(body), c.initial)];
    assert(incomings@ =~= seq![(c.preheader, c.initial), (BlockId(body), c.initial)]);
    let counter = emit_phi(func, header, incomings);
    let again = emit_comparison(func, header, CompareOp::Lt, counter, cutoff);
    let middle = clone_body_lane(source, c, func, counter, body);
    let last = clone_body_lane(source, c, func, middle, body);
    end_branch(func, p, enough, header, c.header.0);
    end_branch(func, header, again, body, c.header.0);
    end_jump(func, body, header);
    let incomings = vec![(c.preheader, c.initial), (BlockId(body), last)];
    assert(incomings@ =~= seq![(c.preheader, c.initial), (BlockId(body), last)]);
    set_phi(func, counter, incomings);
    extend_phi(func, c.counter, (BlockId(header), counter));
}

/// Unrolls the loops of a function.
pub fn unroll_simple_loops(func: &mut Function)
    requires
        old(func)@.wf(),
    ensures
        final(func)@ == unrolled_function(old(func)@),
        final(func)@.wf(),
{
    let ghost f = func@;
    assert(func.blocks.len() == f.blocks.len());
    assert(func.values.len() == f.values.len());
    if func.blocks.len() > MAX_BLOCKS || func.values.len() > MAX_VALUES {
        return ;
    }
    let list = find_candidates(func);
    let source = func.clone();
    let mut copied: usize = 0;
    let n = list.len();
    for k in 0..n
        invariant
            n == list.len(),
            source@ == f,
            f.wf(),
            forall|j: int| 0 <= j < list.len() ==> candidate_in(f, #[trigger] list@[j]),
            copied <= MAX_CLONED_INSTS_PER_FUNCTION,
            (func@, copied as nat) == unrolled_below(f, list@, k as int),
            func@.blocks.len() >= f.blocks.len(),
            copied == 0 ==> func@ == f,
    {
        let c = list[k];
        assert(candidate_in(f, list@[k as int]));
        let growth = c.size * UNROLL_FACTOR;
        if copied + growth <= MAX_CLONED_INSTS_PER_FUNCTION {
            apply_unroll(&source, func, c);
            copied = copied + growth;
        }
    }
    if copied > 0 {
        if func.verify().is_err() {
            *func = source;
        }
    }
}

/// The pass over all functions of a module.
pub struct SimpleLoopUnrollPass;

impl SimpleLoopUnrollPass {
    pub fn new() -> (r: Self) {
        SimpleLoopUnrollPass
    }

    /// Unrolls the loops of every function.
    pub fn run(&self, module: &mut Module)
        requires
            old(module)@.wf(),
        ensures
            final(module)@ == unrolled_module(old(module)@),
            final(module)@.wf(),
    {
        let ghost m = module@;
        let ghost want = unrolled_module(m);
        let n = module.funcs.len();
        for k in 0..n
            invariant
                n == module.funcs.len(),
                n == m.funcs.len(),
                m.wf(),
                module@ == (ModuleView { funcs: module@.funcs, ..m }),
                want == unrolled_module(m),
                forall|j: int|
                    0 <= j < k ==> #[trigger] module@.funcs[j] == want.funcs[j]
                        && module@.funcs[j].wf(),
                forall|j: int| k <= j < n ==> #[trigger] module@.funcs[j] == m.funcs[j],
        {
            assert(module@.funcs[k as int] == m.funcs[k as int]);
            let ghost before = module@.funcs;
            unroll_simple_loops(&mut module.funcs[k]);
            assert(module@.funcs =~= before.update(k as int, module.funcs@[k as int]@));
        }
        assert(module@.funcs =~= want.funcs);
    }
}

// ---------------------------------------------------------------------------
// Laws
// ---------------------------------------------------------------------------

/// The pass keeps functions valid.
pub proof fn unrolling_keeps_validity(f: FuncView)
    requires
        verify::valid(f),
    ensures
        verify::valid(unrolled_function(f)),
{
}

} // verus!
