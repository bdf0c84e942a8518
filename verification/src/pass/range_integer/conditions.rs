//! Comparisons whose outcome a branch before them has decided.
use vstd::prelude::*;

use crate::cfg;
use crate::cfg::{ControlFlowGraph, Dominators};
use crate::emit;
use crate::emit::end_branch;
use crate::ir::{BlockId, CompareOp, Const, FuncView, Function, ValueId};
use crate::patterns;
use crate::patterns::{as_branch, as_compare, mirror};
use crate::query;
use crate::query::{dominates_in, only_pred};
use crate::util;
use crate::util::{const_i32, get_or_add_const};

verus! {

pub const MAX_BLOCKS: usize = 4096;

pub const MAX_FACTS: usize = 8192;

pub const MAX_PROOF_WORK: usize = 262144;

/// The outcome of a comparison wherever a block has been passed.
#[derive(Clone, Copy, PartialEq, Eq, Structural)]
pub struct Fact {
    pub region: BlockId,
    pub op: CompareOp,
    pub lhs: ValueId,
    pub rhs: ValueId,
    pub truth: bool,
}

// ---------------------------------------------------------------------------
// Mathematical model
// ---------------------------------------------------------------------------

/// The branch and the comparison that decides it.
pub open spec fn decision_of(f: FuncView, b: BlockId) -> Option<
    (CompareOp, ValueId, ValueId, BlockId, BlockId),
> {
    match patterns::branch_of(f, b) {
        Some((cond, t, e)) => match patterns::compare_of(f, cond) {
            Some((op, lhs, rhs)) => Some((op, lhs, rhs, t, e)),
            None => None,
        },
        None => None,
    }
}

/// The edge is the only way into the block.
pub open spec fn is_sole_entry(f: FuncView, source: BlockId, target: BlockId) -> bool {
    target != source && cfg::preds(f, target) == seq![source]
}

/// What the branch of a block decides.
pub open spec fn facts_at(f: FuncView, b: BlockId) -> Seq<Fact> {
    match decision_of(f, b) {
        Some((op, lhs, rhs, t, e)) => if t == e {
            Seq::empty()
        } else {
            (if is_sole_entry(f, b, t) {
                seq![Fact { region: t, op, lhs, rhs, truth: true }]
            } else {
                Seq::empty()
            }) + (if is_sole_entry(f, b, e) {
                seq![Fact { region: e, op, lhs, rhs, truth: false }]
            } else {
                Seq::empty()
            })
        },
        None => Seq::empty(),
    }
}

/// What the branches of the first `n` blocks decide.
pub open spec fn facts_below(f: FuncView, n: int) -> Seq<Fact>
    decreases n,
{
    if n <= 0 {
        Seq::empty()
    } else {
        facts_below(f, n - 1) + facts_at(f, BlockId((n - 1) as usize))
    }
}

pub open spec fn facts_of(f: FuncView) -> Seq<Fact> {
    facts_below(f, f.blocks.len() as int)
}

/// The values are one value, or one constant.
pub open spec fn is_equal(f: FuncView, a: ValueId, b: ValueId) -> bool {
    a == b || (util::const_i32_of(f, a) is Some && util::const_i32_of(f, a) == util::const_i32_of(
        f,
        b,
    ))
}

/// The fact decides the comparison.
pub open spec fn decides(f: FuncView, fact: Fact, op: CompareOp, lhs: ValueId, rhs: ValueId) -> bool {
    ||| fact.op == op && is_equal(f, fact.lhs, lhs) && is_equal(f, fact.rhs, rhs)
    ||| patterns::mirrored(fact.op) == op && is_equal(f, fact.lhs, rhs) && is_equal(
        f,
        fact.rhs,
        lhs,
    )
}

/// The outcome of the comparison that the facts from place `k` on decide at the
/// block.
pub open spec fn outcome_from(
    f: FuncView,
    facts: Seq<Fact>,
    b: BlockId,
    op: CompareOp,
    lhs: ValueId,
    rhs: ValueId,
    k: int,
) -> Option<bool>
    decreases facts.len() - k,
{
    if k < 0 || k >= facts.len() {
        None
    } else if cfg::dominates(f, facts[k].region, b) && decides(f, facts[k], op, lhs, rhs) {
        Some(facts[k].truth)
    } else {
        outcome_from(f, facts, b, op, lhs, rhs, k + 1)
    }
}

/// The outcome of the branch of a block.
pub open spec fn outcome_at(f: FuncView, facts: Seq<Fact>, b: BlockId) -> Option<bool> {
    match decision_of(f, b) {
        Some((op, lhs, rhs, _, _)) => outcome_from(f, facts, b, op, lhs, rhs, 0),
        None => None,
    }
}

/// A branch with its outcome.
#[derive(Clone, Copy, PartialEq, Eq, Structural)]
pub struct Fold {
    pub block: BlockId,
    pub truth: bool,
}

/// The decided branches of the first `n` blocks.
pub open spec fn folds_below(f: FuncView, facts: Seq<Fact>, n: int) -> Seq<Fold>
    decreases n,
{
    if n <= 0 {
        Seq::empty()
    } else {
        let b = BlockId((n - 1) as usize);
        match outcome_at(f, facts, b) {
            Some(truth) => folds_below(f, facts, n - 1).push(Fold { block: b, truth }),
            None => folds_below(f, facts, n - 1),
        }
    }
}

/// Some branch has the outcome.
pub open spec fn has_outcome(folds: Seq<Fold>, truth: bool) -> bool {
    exists|k: int| 0 <= k < folds.len() && (#[trigger] folds[k]).truth == truth
}

/// The function with the first `k` branches decided by the constants.
pub open spec fn branches_decided(
    f: FuncView,
    g: FuncView,
    folds: Seq<Fold>,
    no: ValueId,
    yes: ValueId,
    k: int,
) -> FuncView
    decreases k,
{
    if k <= 0 {
        g
    } else {
        let before = branches_decided(f, g, folds, no, yes, k - 1);
        let fold = folds[k - 1];
        match patterns::branch_of(f, fold.block) {
            Some((_, t, e)) => emit::ended(
                before,
                fold.block.0,
                emit::branch(
                    if fold.truth {
                        yes
                    } else {
                        no
                    },
                    t.0,
                    e.0,
                ),
            ),
            None => before,
        }
    }
}

/// The function with the decided branches on constants.
pub open spec fn conditions_folded(f: FuncView) -> FuncView {
    let facts = facts_of(f);
    let folds = folds_below(f, facts, f.blocks.len() as int);
    if f.blocks.len() > MAX_BLOCKS || facts.len() > MAX_FACTS || facts.len() * f.blocks.len()
        > MAX_PROOF_WORK || folds.len() == 0 {
        f
    } else {
        let no = util::const_value(f, Const::Bool(false));
        let g1 = if has_outcome(folds, false) {
            util::with_const(f, Const::Bool(false))
        } else {
            f
        };
        let yes = util::const_value(g1, Const::Bool(true));
        let g2 = if has_outcome(folds, true) {
            util::with_const(g1, Const::Bool(true))
        } else {
            g1
        };
        branches_decided(f, g2, folds, no, yes, folds.len() as int)
    }
}

// ---------------------------------------------------------------------------
// Executable functions
// ---------------------------------------------------------------------------

fn find_decision(func: &Function, b: BlockId) -> (r: Option<
    (CompareOp, ValueId, ValueId, BlockId, BlockId),
>)
    requires
        func@.wf(),
        func@.has_block(b),
    ensures
        r == decision_of(func@, b),
        r matches Some((_, _, _, t, e)) ==> func@.has_block(t) && func@.has_block(e),
{
    let (cond, t, e) = as_branch(func, b)?;
    proof {
        query::lemma_terminator_wf(func@, b);
    }
    let (op, lhs, rhs) = as_compare(func, cond)?;
    Some((op, lhs, rhs, t, e))
}

pub fn has_sole_entry(func: &Function, graph: &ControlFlowGraph, source: BlockId, target: BlockId) -> (r:
    bool)
    requires
        func@.wf(),
        graph.of(func@),
        func@.has_block(target),
    ensures
        r == is_sole_entry(func@, source, target),
{
    target != source && only_pred(func, graph, target, source)
}

fn collect_facts(func: &Function, graph: &ControlFlowGraph) -> (r: Vec<Fact>)
    requires
        func@.wf(),
        graph.of(func@),
        func@.blocks.len() <= MAX_BLOCKS,
    ensures
        r@ == facts_of(func@),
        forall|k: int| 0 <= k < r.len() ==> func@.has_block((#[trigger] r@[k]).region),
{
    let ghost f = func@;
    let mut list: Vec<Fact> = Vec::new();
    let n = func.blocks.len();
    assert(n == f.blocks.len());
    for b in 0..n
        invariant
            func@ == f,
            f.wf(),
            graph.of(f),
            n == f.blocks.len(),
            list@ == facts_below(f, b as int),
            forall|k: int| 0 <= k < list.len() ==> f.has_block((#[trigger] list@[k]).region),
    {
        let ghost before = list@;
        let id = BlockId(b);
        if let Some((op, lhs, rhs, t, e)) = find_decision(func, id) {
            if t != e {
                if has_sole_entry(func, graph, id, t) {
                    list.push(Fact { region: t, op, lhs, rhs, truth: true });
                }
                if has_sole_entry(func, graph, id, e) {
                    list.push(Fact { region: e, op, lhs, rhs, truth: false });
                }
            }
        }
        assert(list@ =~= before + facts_at(f, id));
    }
    list
}

fn operands_equal(func: &Function, a: ValueId, b: ValueId) -> (r: bool)
    ensures
        r == is_equal(func@, a, b),
{
    if a == b {
        return true;
    }
    match (const_i32(func, a), const_i32(func, b)) {
        (Some(x), Some(y)) => x == y,
        _ => false,
    }
}

fn fact_decides(func: &Function, fact: Fact, op: CompareOp, lhs: ValueId, rhs: ValueId) -> (r: bool)
    ensures
        r == decides(func@, fact, op, lhs, rhs),
{
    (fact.op == op && operands_equal(func, fact.lhs, lhs) && operands_equal(func, fact.rhs, rhs))
        || (mirror(fact.op) == op && operands_equal(func, fact.lhs, rhs) && operands_equal(
        func,
        fact.rhs,
        lhs,
    ))
}

fn find_outcome(func: &Function, dom: &Dominators, facts: &Vec<Fact>, b: BlockId) -> (r: Option<
    bool,
>)
    requires
        func@.wf(),
        dom.of(func@),
        func@.has_block(b),
        forall|k: int| 0 <= k < facts.len() ==> func@.has_block((#[trigger] facts@[k]).region),
    ensures
        r == outcome_at(func@, facts@, b),
{
    let ghost f = func@;
    let (op, lhs, rhs, _, _) = find_decision(func, b)?;
    let n = facts.len();
    for k in 0..n
        invariant
            func@ == f,
            f.wf(),
            dom.of(f),
            f.has_block(b),
            n == facts.len(),
            forall|k: int| 0 <= k < facts.len() ==> f.has_block((#[trigger] facts@[k]).region),
            outcome_at(f, facts@, b) == outcome_from(f, facts@, b, op, lhs, rhs, k as int),
    {
        let fact = facts[k];
        assert(f.has_block(facts@[k as int].region));
        if dominates_in(func, dom, fact.region, b) && fact_decides(func, fact, op, lhs, rhs) {
            return Some(fact.truth);
        }
    }
    None
}

fn collect_folds(func: &Function, dom: &Dominators, facts: &Vec<Fact>) -> (r: Vec<Fold>)
    requires
        func@.wf(),
        dom.of(func@),
        forall|k: int| 0 <= k < facts.len() ==> func@.has_block((#[trigger] facts@[k]).region),
    ensures
        r@ == folds_below(func@, facts@, func@.blocks.len() as int),
        forall|k: int| 0 <= k < r.len() ==> func@.has_block((#[trigger] r@[k]).block),
{
    let ghost f = func@;
    let mut list: Vec<Fold> = Vec::new();
    let n = func.blocks.len();
    assert(n == f.blocks.len());
    for b in 0..n
        invariant
            func@ == f,
            f.wf(),
            dom.of(f),
            n == f.blocks.len(),
            forall|k: int| 0 <= k < facts.len() ==> f.has_block((#[trigger] facts@[k]).region),
            list@ == folds_below(f, facts@, b as int),
            forall|k: int| 0 <= k < list.len() ==> f.has_block((#[trigger] list@[k]).block),
    {
        if let Some(truth) = find_outcome(func, dom, facts, BlockId(b)) {
            list.push(Fold { block: BlockId(b), truth });
        }
    }
    list
}

fn any_outcome(folds: &Vec<Fold>, truth: bool) -> (r: bool)
    ensures
        r == has_outcome(folds@, truth),
{
    let n = folds.len();
    for k in 0..n
        invariant
            n == folds.len(),
            forall|j: int| 0 <= j < k ==> (#[trigger] folds@[j]).truth != truth,
    {
        if folds[k].truth == truth {
            return true;
        }
    }
    false
}

/// Puts the branches that are decided on constants.
pub fn fold_dominated_integer_conditions(func: &mut Function)
    requires
        old(func)@.wf(),
    ensures
        final(func)@ == conditions_folded(old(func)@),
{
    let ghost f = func@;
    let blocks = func.blocks.len();
    assert(blocks == f.blocks.len());
    if blocks > MAX_BLOCKS {
        return ;
    }
    let graph = ControlFlowGraph::new(func);
    let dom = Dominators::new(func, &graph);
    let facts = collect_facts(func, &graph);
    if facts.len() > MAX_FACTS {
        return ;
    }
    assert(facts.len() * blocks <= MAX_FACTS * MAX_BLOCKS) by (nonlinear_arith)
        requires
            facts.len() <= MAX_FACTS,
            blocks <= MAX_BLOCKS,
    ;
    if facts.len() * blocks > MAX_PROOF_WORK {
        return ;
    }
    let folds = collect_folds(func, &dom, &facts);
    let n = folds.len();
    if n == 0 {
        return ;
    }
    let source = func.clone();
    let no_decided = any_outcome(&folds, false);
    let yes_decided = any_outcome(&folds, true);
    let ghost no_value = util::const_value(f, Const::Bool(false));
    let no = if no_decided {
        get_or_add_const(func, &Const::Bool(false))
    } else {
        ValueId(0)
    };
    let ghost g1 = func@;
    let ghost yes_value = util::const_value(g1, Const::Bool(true));
    let yes = if yes_decided {
        get_or_add_const(func, &Const::Bool(true))
    } else {
        ValueId(0)
    };
    let ghost g2 = func@;
    for k in 0..n
        invariant
            n == folds.len(),
            source@ == f,
            f.wf(),
            func@.blocks.len() == f.blocks.len(),
            forall|k: int| 0 <= k < folds.len() ==> f.has_block((#[trigger] folds@[k]).block),
            has_outcome(folds@, false) ==> no == no_value,
            has_outcome(folds@, true) ==> yes == yes_value,
            func@ == branches_decided(f, g2, folds@, no_value, yes_value, k as int),
    {
        let fold = folds[k];
        assert(f.has_block(folds@[k as int].block));
        assert(has_outcome(folds@, fold.truth)) by {
            assert(folds@[k as int].truth == fold.truth);
        }
        if let Some((_, t, e)) = as_branch(&source, fold.block) {
            let v = if fold.truth {
                yes
            } else {
                no
            };
            end_branch(func, fold.block.0, v, t.0, e.0);
        }
    }
}

} // verus!
