//! Validity of a function in SSA form, and its check.
use vstd::prelude::*;

use crate::cfg;
use crate::cfg::{ControlFlowGraph, Dominators};
use crate::edit;
use crate::edit::{inst_operands, terminator_operands};
use crate::ir::{
    Block, BlockId, FuncView, Function, Inst, InstKind, InstView, KindView, ModuleView, Terminator,
    ValueId, ValueKind, ValueKindView,
};

verus! {

// ---------------------------------------------------------------------------
// Mathematical model
// ---------------------------------------------------------------------------

/// `v` is no instruction result, or the instruction it names defines it.
pub open spec fn defined(f: FuncView, v: ValueId) -> bool {
    match f.value(v).kind {
        ValueKindView::Inst(b, i) => f.has_inst(b, i as int) && f.inst(b, i as int).result == Some(
            v,
        ),
        _ => true,
    }
}

/// `v` may be read at position `i` of block `b`: its definition stands earlier
/// in the block or dominates it. Code that cannot be reached may also read what
/// the entry block defines.
pub open spec fn available(f: FuncView, v: ValueId, b: BlockId, i: int) -> bool {
    &&& defined(f, v)
    &&& match f.value(v).kind {
        ValueKindView::Inst(owner, at) => if owner == b {
            at < i
        } else {
            cfg::dominates(f, owner, b) || (!cfg::reachable(f, b) && owner == f.entry)
        },
        _ => true,
    }
}

/// Every value of the list may be read at position `i` of block `b`.
pub open spec fn all_available(f: FuncView, values: Seq<ValueId>, b: BlockId, i: int) -> bool {
    forall|k: int| 0 <= k < values.len() ==> available(f, #[trigger] values[k], b, i)
}

pub open spec fn block_end(f: FuncView, b: BlockId) -> int {
    f.block(b).insts.len() as int
}

/// The incoming list names every predecessor of `b` once, and each value is
/// available at the end of its predecessor.
pub open spec fn phi_valid(f: FuncView, incomings: Seq<(BlockId, ValueId)>, b: BlockId) -> bool {
    &&& incomings.len() == cfg::preds(f, b).len()
    &&& forall|k: int|
        0 <= k < incomings.len() ==> cfg::edge(f, (#[trigger] incomings[k]).0, b) && available(
            f,
            incomings[k].1,
            incomings[k].0,
            block_end(f, incomings[k].0),
        )
    &&& forall|j: int, k: int|
        0 <= j < k < incomings.len() ==> (#[trigger] incomings[j]).0 != (#[trigger] incomings[k]).0
}

pub open spec fn inst_valid(f: FuncView, b: BlockId, i: int) -> bool {
    let inst = f.inst(b, i);
    &&& (inst.result matches Some(v) ==> f.value(v).kind == ValueKindView::Inst(b, i as usize))
    &&& match inst.kind {
        KindView::Phi { incomings } => phi_valid(f, incomings, b) && phis_lead(
            f.block(b).insts,
            i,
        ),
        kind => all_available(f, edit::operands(kind), b, i),
    }
}

/// Only phis and empty slots stand before position `i`.
pub open spec fn phis_lead(insts: Seq<InstView>, i: int) -> bool {
    forall|j: int|
        0 <= j < i ==> (#[trigger] insts[j].kind) is Phi || insts[j].kind is Nop
}

pub open spec fn block_valid(f: FuncView, b: BlockId) -> bool {
    &&& f.terminator(b) is Some
    &&& forall|i: int| 0 <= i < f.block(b).insts.len() ==> #[trigger] inst_valid(f, b, i)
    &&& all_available(f, edit::terminator_reads(f.terminator(b)), b, block_end(f, b))
}

/// The function is in valid SSA form.
pub open spec fn valid(f: FuncView) -> bool {
    &&& f.wf()
    &&& forall|b: BlockId| f.has_block(b) ==> #[trigger] block_valid(f, b)
}

/// Every function of the module is in valid SSA form.
pub open spec fn all_valid(m: ModuleView) -> bool {
    forall|k: int| 0 <= k < m.funcs.len() ==> valid(#[trigger] m.funcs[k])
}

/// The two functions consist of the same code; their names, result types and
/// records of decisions may differ.
pub open spec fn same_code(f: FuncView, g: FuncView) -> bool {
    &&& f.blocks == g.blocks
    &&& f.values == g.values
    &&& f.params == g.params
    &&& f.entry == g.entry
}

proof fn lemma_same_preds(f: FuncView, g: FuncView, b: BlockId, n: int)
    requires
        same_code(f, g),
    ensures
        cfg::preds_below(f, b, n) == cfg::preds_below(g, b, n),
    decreases n,
{
    if n > 0 {
        lemma_same_preds(f, g, b, n - 1);
    }
}

proof fn lemma_same_availability(f: FuncView, g: FuncView, v: ValueId, b: BlockId, i: int)
    requires
        same_code(f, g),
    ensures
        available(f, v, b, i) == available(g, v, b, i),
{
    assert(cfg::succ_lists(f) =~= cfg::succ_lists(g));
}

/// Whether a function is valid depends on its code alone.
pub proof fn validity_depends_on_the_code(f: FuncView, g: FuncView)
    requires
        same_code(f, g),
        valid(f),
    ensures
        valid(g),
{
    assert forall|v: ValueId, b: BlockId, i: int|
        available(f, v, b, i) implies #[trigger] available(g, v, b, i) by {
        lemma_same_availability(f, g, v, b, i);
    }
    assert forall|b: BlockId| g.has_block(b) implies #[trigger] block_valid(g, b) by {
        assert(block_valid(f, b));
        lemma_same_preds(f, g, b, f.blocks.len() as int);
        assert forall|i: int| 0 <= i < g.block(b).insts.len() implies #[trigger] inst_valid(
            g,
            b,
            i,
        ) by {
            assert(inst_valid(f, b, i));
        }
    }
}

// ---------------------------------------------------------------------------
// Executable check
// ---------------------------------------------------------------------------

/// The function is not in valid SSA form.
#[derive(Clone, Copy, PartialEq, Eq, Debug)]
pub struct InvalidFunction;

#[verifier::loop_isolation(false)]
fn kind_in_range(kind: &InstKind, nb: usize, nv: usize) -> (r: bool)
    ensures
        r == edit::kind_wf(kind@, nb as nat, nv as nat),
{
    if let InstKind::Phi { incomings } = kind {
        let n = incomings.len();
        for k in 0..n
            invariant
                n == incomings.len(),
                forall|j: int|
                    0 <= j < k ==> (#[trigger] incomings@[j]).0.0 < nb && incomings@[j].1.0 < nv,
        {
            if incomings[k].0.0 >= nb || incomings[k].1.0 >= nv {
                proof {
                    assert(incomings@[k as int].0.0 >= nb || incomings@[k as int].1.0 >= nv);
                }
                return false;
            }
        }
        return true;
    }
    let reads = inst_operands(kind);
    let n = reads.len();
    for k in 0..n
        invariant
            n == reads.len(),
            reads@ == edit::operands(kind@),
            !(kind@ is Phi),
            forall|j: int| 0 <= j < k ==> (#[trigger] reads@[j]).0 < nv,
    {
        if reads[k].0 >= nv {
            proof {
                lemma_operand_out_of_range(kind@, nb as nat, nv as nat, k as int);
            }
            return false;
        }
    }
    proof {
        lemma_operands_in_range(kind@, nb as nat, nv as nat);
    }
    true
}

pub proof fn lemma_operand_out_of_range(kind: KindView, nb: nat, nv: nat, k: int)
    requires
        !(kind is Phi),
        0 <= k < edit::operands(kind).len(),
        edit::operands(kind)[k].0 >= nv,
    ensures
        !edit::kind_wf(kind, nb, nv),
{
    match kind {
        KindView::Gep { base, indices } => {
            if k > 0 {
                assert(edit::operands(kind)[k] == indices[k - 1]);
            }
        },
        KindView::Call { name, args } => {
            assert(edit::operands(kind)[k] == args[k]);
        },
        _ => {},
    }
}

/// A kind whose operands are in range is well formed, unless it is a phi.
pub proof fn lemma_operands_in_range(kind: KindView, nb: nat, nv: nat)
    requires
        !(kind is Phi),
        forall|j: int|
            0 <= j < edit::operands(kind).len() ==> (#[trigger] edit::operands(kind)[j]).0 < nv,
    ensures
        edit::kind_wf(kind, nb, nv),
{
    let reads = edit::operands(kind);
    match kind {
        KindView::Gep { base, indices } => {
            assert(reads[0] == base);
            assert forall|k: int| 0 <= k < indices.len() implies (#[trigger] indices[k]).0
                < nv by {
                assert(reads[k + 1] == indices[k]);
            }
        },
        KindView::Call { name, args } => {
            assert forall|k: int| 0 <= k < args.len() implies (#[trigger] args[k]).0 < nv by {
                assert(reads[k] == args[k]);
            }
        },
        KindView::Load { ptr } => {
            assert(reads[0] == ptr);
        },
        KindView::Store { ptr, value } => {
            assert(reads[0] == ptr);
            assert(reads[1] == value);
        },
        KindView::MemZero { ptr, bytes, count } => {
            assert(reads[0] == ptr);
            if let Some(count) = count {
                assert(reads[1] == count);
            }
        },
        KindView::MemCopy { dst, src, element_bytes, count } => {
            assert(reads[0] == dst);
            assert(reads[1] == src);
            assert(reads[2] == count);
        },
        KindView::Unary { op, value } => {
            assert(reads[0] == value);
        },
        KindView::Cast { op, value } => {
            assert(reads[0] == value);
        },
        KindView::Binary { op, lhs, rhs } => {
            assert(reads[0] == lhs);
            assert(reads[1] == rhs);
        },
        KindView::ICompare { op, lhs, rhs } => {
            assert(reads[0] == lhs);
            assert(reads[1] == rhs);
        },
        KindView::FCompare { op, lhs, rhs } => {
            assert(reads[0] == lhs);
            assert(reads[1] == rhs);
        },
        _ => {},
    }
}

/// The operands of a well-formed kind are in range.
pub proof fn lemma_kind_wf_operands(kind: KindView, nb: nat, nv: nat)
    requires
        edit::kind_wf(kind, nb, nv),
    ensures
        forall|j: int|
            0 <= j < edit::operands(kind).len() ==> (#[trigger] edit::operands(kind)[j]).0 < nv,
{
    let reads = edit::operands(kind);
    assert forall|j: int| 0 <= j < reads.len() implies (#[trigger] reads[j]).0 < nv by {
        if let KindView::Phi { incomings } = kind {
            assert(reads[j] == incomings[j].1);
        } else if reads[j].0 >= nv {
            lemma_operand_out_of_range(kind, nb, nv, j);
        }
    }
}

fn terminator_in_range(terminator: &Option<Terminator>, nb: usize, nv: usize) -> (r: bool)
    ensures
        r == edit::terminator_wf(*terminator, nb as nat, nv as nat),
{
    match terminator {
        None => true,
        Some(Terminator::Return(None)) => true,
        Some(Terminator::Return(Some(value))) => value.0 < nv,
        Some(Terminator::Jump(target)) => target.0 < nb,
        Some(Terminator::Branch { cond, then_target, else_target }) => cond.0 < nv && then_target.0
            < nb && else_target.0 < nb,
    }
}

fn block_in_range(block: &Block, nb: usize, nv: usize) -> (r: bool)
    ensures
        r == edit::block_wf(block@, nb as nat, nv as nat),
{
    let n = block.insts.len();
    for i in 0..n
        invariant
            n == block.insts.len(),
            forall|j: int|
                0 <= j < i ==> edit::inst_wf(#[trigger] block@.insts[j], nb as nat, nv as nat),
    {
        let inst = &block.insts[i];
        let result_ok = match inst.result {
            Some(v) => v.0 < nv,
            None => true,
        };
        let kind_ok = kind_in_range(&inst.kind, nb, nv);
        assert(block@.insts[i as int] == inst@);
        if !result_ok || !kind_ok {
            return false;
        }
    }
    terminator_in_range(&block.terminator, nb, nv)
}

/// Whether every id of the function is in range.
pub fn ids_in_range(func: &Function) -> (r: bool)
    ensures
        r == func@.wf(),
{
    let nb = func.blocks.len();
    let nv = func.values.len();
    if func.entry.0 >= nb {
        return false;
    }
    for b in 0..nb
        invariant
            nb == func@.blocks.len(),
            nv == func@.values.len(),
            forall|j: int|
                0 <= j < b ==> edit::block_wf(#[trigger] func@.blocks[j], nb as nat, nv as nat),
    {
        if !block_in_range(&func.blocks[b], nb, nv) {
            assert(!edit::block_wf(func@.blocks[b as int], nb as nat, nv as nat));
            return false;
        }
    }
    for v in 0..nv
        invariant
            nb == func@.blocks.len(),
            nv == func@.values.len(),
            forall|j: int| 0 <= j < v ==> edit::value_wf(#[trigger] func@.values[j], nb as nat),
    {
        if let ValueKind::Inst(owner, _) = &func.values[v].kind {
            if owner.0 >= nb {
                assert(!edit::value_wf(func@.values[v as int], nb as nat));
                return false;
            }
        }
        assert(edit::value_wf(func@.values[v as int], nb as nat));
    }
    let np = func.params.len();
    for p in 0..np
        invariant
            np == func@.params.len(),
            nv == func@.values.len(),
            forall|j: int| 0 <= j < p ==> (#[trigger] func@.params[j]).0 < nv,
    {
        if func.params[p].0 >= nv {
            assert(!(func@.params[p as int].0 < nv));
            return false;
        }
    }
    true
}

/// Whether the instruction that `v` names defines it.
pub fn is_defined(func: &Function, v: ValueId) -> (r: bool)
    requires
        func@.has_value(v),
    ensures
        r == defined(func@, v),
{
    match &func.values[v.0].kind {
        ValueKind::Inst(b, i) => {
            if b.0 < func.blocks.len() && *i < func.blocks[b.0].insts.len() {
                assert(func@.inst(*b, *i as int) == func.blocks@[b.0 as int].insts@[*i as int]@);
                func.blocks[b.0].insts[*i].result == Some(v)
            } else {
                false
            }
        },
        _ => true,
    }
}

/// Whether `v` may be read at position `i` of block `b`.
pub fn is_available(func: &Function, dom: &Dominators, v: ValueId, b: BlockId, i: usize) -> (r:
    bool)
    requires
        func@.wf(),
        dom.of(func@),
        func@.has_value(v),
        func@.has_block(b),
    ensures
        r == available(func@, v, b, i as int),
{
    if !is_defined(func, v) {
        return false;
    }
    match &func.values[v.0].kind {
        ValueKind::Inst(owner, at) => {
            if *owner == b {
                *at < i
            } else {
                assert(dom.table@[owner.0 as int]@[b.0 as int] <==> cfg::dominates(
                    func@,
                    *owner,
                    b,
                ));
                assert(dom.reached@[b.0 as int] <==> cfg::reachable(func@, b));
                dom.dominates(*owner, b) || (!dom.is_reachable(b) && *owner == func.entry)
            }
        },
        _ => true,
    }
}

fn are_available(
    func: &Function,
    dom: &Dominators,
    values: &Vec<ValueId>,
    b: BlockId,
    i: usize,
) -> (r: bool)
    requires
        func@.wf(),
        dom.of(func@),
        forall|k: int| 0 <= k < values.len() ==> func@.has_value(#[trigger] values@[k]),
        func@.has_block(b),
    ensures
        r == all_available(func@, values@, b, i as int),
{
    let n = values.len();
    for k in 0..n
        invariant
            n == values.len(),
            func@.wf(),
            dom.of(func@),
            forall|j: int| 0 <= j < values.len() ==> func@.has_value(#[trigger] values@[j]),
            func@.has_block(b),
            forall|j: int|
                0 <= j < k ==> available(func@, #[trigger] values@[j], b, i as int),
    {
        assert(func@.has_value(values@[k as int]));
        if !is_available(func, dom, values[k], b, i) {
            return false;
        }
    }
    true
}

/// Whether the list holds the block.
pub fn contains_block(list: &Vec<BlockId>, b: BlockId) -> (r: bool)
    ensures
        r == list@.contains(b),
{
    let n = list.len();
    for i in 0..n
        invariant
            n == list.len(),
            forall|j: int| 0 <= j < i ==> #[trigger] list@[j] != b,
    {
        if list[i] == b {
            assert(list@[i as int] == b);
            return true;
        }
    }
    false
}

#[verifier::loop_isolation(false)]
fn is_phi_valid(
    func: &Function,
    cfg: &ControlFlowGraph,
    dom: &Dominators,
    incomings: &Vec<(BlockId, ValueId)>,
    b: BlockId,
) -> (r: bool)
    requires
        func@.wf(),
        cfg.of(func@),
        dom.of(func@),
        func@.has_block(b),
        edit::kind_wf(
            KindView::Phi { incomings: incomings@ },
            func@.blocks.len(),
            func@.values.len(),
        ),
    ensures
        r == phi_valid(func@, incomings@, b),
{
    let n = incomings.len();
    assert(cfg.preds@[b.0 as int]@ == cfg::preds(func@, b)) by {
        assert(cfg::lists_view(cfg.preds@)[b.0 as int] == cfg::pred_lists(func@)[b.0 as int]);
        assert(cfg::lists_view(cfg.preds@).len() == cfg::pred_lists(func@).len());
    }
    assert(cfg.preds@.len() == func@.blocks.len()) by {
        assert(cfg::lists_view(cfg.preds@).len() == cfg::pred_lists(func@).len());
    }
    if n != cfg.preds[b.0].len() {
        return false;
    }
    for k in 0..n
        invariant
            n == incomings.len(),
            func@.wf(),
            cfg.of(func@),
            dom.of(func@),
            func@.has_block(b),
            cfg.preds@.len() == func@.blocks.len(),
            func@.blocks.len() <= usize::MAX,
            cfg.preds@[b.0 as int]@ == cfg::preds(func@, b),
            edit::kind_wf(
                KindView::Phi { incomings: incomings@ },
                func@.blocks.len(),
                func@.values.len(),
            ),
            forall|j: int|
                0 <= j < k ==> cfg::edge(func@, (#[trigger] incomings@[j]).0, b) && available(
                    func@,
                    incomings@[j].1,
                    incomings@[j].0,
                    block_end(func@, incomings@[j].0),
                ),
            forall|i: int, j: int|
                0 <= i < j < k ==> (#[trigger] incomings@[i]).0 != (#[trigger] incomings@[j]).0,
    {
        let (pred, value) = (incomings[k].0, incomings[k].1);
        assert(incomings@[k as int] == (pred, value));
        proof {
            cfg::lemma_preds_below(func@, b, func@.blocks.len() as int, pred);
        }
        if !contains_block(&cfg.preds[b.0], pred) {
            return false;
        }
        let end = func.blocks[pred.0].insts.len();
        assert(end == block_end(func@, pred));
        if !is_available(func, dom, value, pred, end) {
            return false;
        }
        for j in 0..k
            invariant
                k < n,
                n == incomings.len(),
                pred == incomings@[k as int].0,
                forall|i: int| 0 <= i < j ==> (#[trigger] incomings@[i]).0 != pred,
        {
            if incomings[j].0 == pred {
                assert(incomings@[j as int].0 == incomings@[k as int].0);
                return false;
            }
        }
    }
    true
}

#[verifier::loop_isolation(false)]
fn is_inst_valid(
    func: &Function,
    cfg: &ControlFlowGraph,
    dom: &Dominators,
    b: BlockId,
    i: usize,
) -> (r: bool)
    requires
        func@.wf(),
        cfg.of(func@),
        dom.of(func@),
        func@.has_inst(b, i as int),
    ensures
        r == inst_valid(func@, b, i as int),
{
    let inst = &func.blocks[b.0].insts[i];
    proof {
        assert(inst@ == func@.inst(b, i as int));
        assert(edit::block_wf(func@.blocks[b.0 as int], func@.blocks.len(), func@.values.len()));
        assert(edit::inst_wf(
            func@.blocks[b.0 as int].insts[i as int],
            func@.blocks.len(),
            func@.values.len(),
        ));
    }
    if let Some(v) = inst.result {
        let placed = match &func.values[v.0].kind {
            ValueKind::Inst(owner, at) => *owner == b && *at == i,
            _ => false,
        };
        if !placed {
            return false;
        }
    }
    if let InstKind::Phi { incomings } = &inst.kind {
        if !is_phi_valid(func, cfg, dom, incomings, b) {
            return false;
        }
        for j in 0..i
            invariant
                func@.has_inst(b, i as int),
                forall|k: int|
                    0 <= k < j ==> (#[trigger] func@.block(b).insts[k].kind) is Phi || func@.block(
                        b,
                    ).insts[k].kind is Nop,
        {
            let other = &func.blocks[b.0].insts[j];
            assert(func@.block(b).insts[j as int] == other@);
            match &other.kind {
                InstKind::Phi { .. } => {},
                InstKind::Nop => {},
                _ => {
                    return false;
                },
            }
        }
        return true;
    }
    let reads = inst_operands(&inst.kind);
    proof {
        lemma_kind_wf_operands(inst.kind@, func@.blocks.len(), func@.values.len());
        assert forall|k: int| 0 <= k < reads.len() implies func@.has_value(
            #[trigger] reads@[k],
        ) by {
            assert(edit::operands(inst.kind@)[k].0 < func@.values.len());
        }
    }
    are_available(func, dom, &reads, b, i)
}

fn is_block_valid(func: &Function, cfg: &ControlFlowGraph, dom: &Dominators, b: BlockId) -> (r:
    bool)
    requires
        func@.wf(),
        cfg.of(func@),
        dom.of(func@),
        func@.has_block(b),
    ensures
        r == block_valid(func@, b),
{
    let n = func.blocks[b.0].insts.len();
    if func.blocks[b.0].terminator.is_none() {
        return false;
    }
    for i in 0..n
        invariant
            n == func@.block(b).insts.len(),
            func@.wf(),
            cfg.of(func@),
            dom.of(func@),
            func@.has_block(b),
            forall|j: int| 0 <= j < i ==> #[trigger] inst_valid(func@, b, j),
    {
        if !is_inst_valid(func, cfg, dom, b, i) {
            return false;
        }
    }
    let reads = terminator_operands(&func.blocks[b.0].terminator);
    assert(edit::block_wf(func@.blocks[b.0 as int], func@.blocks.len(), func@.values.len()));
    are_available(func, dom, &reads, b, n)
}

impl Function {
    /// Checks that the function is in valid SSA form.
    pub fn verify(&self) -> (r: Result<(), InvalidFunction>)
        ensures
            r is Ok <==> valid(self@),
    {
        if !ids_in_range(self) {
            return Err(InvalidFunction);
        }
        let graph = ControlFlowGraph::new(self);
        let dom = Dominators::new(self, &graph);
        let n = self.blocks.len();
        for b in 0..n
            invariant
                n == self@.blocks.len(),
                self@.wf(),
                graph.of(self@),
                dom.of(self@),
                forall|j: BlockId| j.0 < b ==> #[trigger] block_valid(self@, j),
        {
            if !is_block_valid(self, &graph, &dom, BlockId(b)) {
                assert(!block_valid(self@, BlockId(b)));
                return Err(InvalidFunction);
            }
        }
        Ok(())
    }
}

} // verus!
