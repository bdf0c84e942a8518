//! Simplification of integer operations keeps what a function computes.
use vstd::arithmetic::power2::pow2;
use vstd::prelude::*;

use crate::bits;
use crate::cfg;
use crate::edit;
use crate::emit;
use crate::ir::{
    BinaryOp, BlockId, CompareOp, Const, FuncView, KindView, Terminator, Type, ValueId,
    ValueKindView,
};
use crate::pass::range_integer;
use crate::pass::range_integer::conditions;
use crate::pass::range_integer::conditions::{Fact, Fold};
use crate::pass::range_integer::divisions;
use crate::pass::range_integer::ranges;
use crate::pass::simplify_cfg::meaning_laws::constants_kept;
use crate::pass::simplify_cfg::select_laws::entered_once;
use crate::pass::simplify_cfg::threading_laws::fits;
use crate::patterns;
use crate::query;
use crate::rewriting;
use crate::rewriting::{end_stands, inst_stands, missing, side_by_side};
use crate::semantics;
use crate::semantics::{Meaning, State};
use crate::ssa;
use crate::util;
use crate::verify;

verus! {

// ---------------------------------------------------------------------------
// Integer arithmetic
// ---------------------------------------------------------------------------

/// The result of an integer comparison.
pub open spec fn of_compare<D, M>(
    m: Meaning<D, M>,
    op: CompareOp,
    v: ValueId,
    w: ValueId,
    a: D,
    b: D,
    memory: M,
) -> D {
    m.result(KindView::ICompare { op, lhs: v, rhs: w }, seq![a, b], memory)
}

/// Integer operations compute with the numbers that the data stand for, in 32
/// bits: comparisons, quotients and remainders rounded towards zero, masks and
/// shifts.
pub open spec fn computes_integers<D, M>(m: Meaning<D, M>, number: spec_fn(D) -> i32) -> bool {
    &&& m.decides_constants()
    &&& forall|i: i32| #[trigger] number(m.integer(i)) == i
    &&& (m.constant)(Const::Zero(Type::I32)) == m.integer(0)
    &&& forall|op: CompareOp, v: ValueId, w: ValueId, a: D, b: D, memory: M|
        (m.truth)(#[trigger] of_compare(m, op, v, w, a, b, memory)) == patterns::compares(
            op,
            number(a) as int,
            number(b) as int,
        )
    &&& forall|v: ValueId, w: ValueId, a: D, b: D, memory: M|
        number(b) != 0 ==> #[trigger] m.of_two(BinaryOp::Imod, v, w, a, b, memory) == m.integer(
            range_integer::remainder(number(a) as int, number(b) as int) as i32,
        )
    &&& forall|v: ValueId, w: ValueId, a: D, b: D, memory: M|
        number(b) != 0 && !(number(a) == i32::MIN && number(b) == -1) ==> #[trigger] m.of_two(
            BinaryOp::Idiv,
            v,
            w,
            a,
            b,
            memory,
        ) == m.integer(range_integer::quotient(number(a) as int, number(b) as int) as i32)
    &&& forall|v: ValueId, w: ValueId, a: D, b: D, memory: M| #[trigger]
        m.of_two(BinaryOp::Iand, v, w, a, b, memory) == m.integer(number(a) & number(b))
    &&& forall|v: ValueId, w: ValueId, a: D, b: D, memory: M|
        0 <= number(b) <= 31 ==> #[trigger] m.of_two(BinaryOp::Iashr, v, w, a, b, memory)
            == m.integer(number(a) >> (number(b) as u32))
}

/// A constant stands for its number.
pub proof fn lemma_const_number<D, M>(
    f: FuncView,
    m: Meaning<D, M>,
    number: spec_fn(D) -> i32,
    env: Map<ValueId, D>,
    v: ValueId,
)
    requires
        computes_integers(m, number),
        constants_kept(f, m, env),
    ensures
        util::const_i32_of(f, v) matches Some(c) ==> number(env[v]) == c,
{
    if f.has_value(v) {
        match f.value(v).kind {
            ValueKindView::Const(Const::Int(i)) => {
                assert(env[v] == m.integer(i));
            },
            _ => {},
        }
    }
}

/// What a known binary operation has computed.
pub proof fn lemma_binary_known<D, M>(
    f: FuncView,
    m: Meaning<D, M>,
    b: BlockId,
    i: int,
    env: Map<ValueId, D>,
    v: ValueId,
    memory: M,
)
    requires
        verify::valid(f),
        fits(f),
        cfg::reachable(f, b),
        ssa::knows(f, m, b, i, env),
        ssa::is_known(f, v, b, i),
        patterns::binary_of(f, v) is Some,
    ensures
        ({
            let (op, lhs, rhs) = patterns::binary_of(f, v)->Some_0;
            &&& env[v] == m.of_two(op, lhs, rhs, env[lhs], env[rhs], memory)
            &&& ssa::is_known(f, lhs, b, i)
            &&& ssa::is_known(f, rhs, b, i)
        }),
{
    let (op, lhs, rhs) = patterns::binary_of(f, v)->Some_0;
    let kind = KindView::Binary { op, lhs, rhs };
    ssa::lemma_computed(f, m, b, i, env, v, kind, memory);
    let list = edit::operands(kind);
    assert(list[0] == lhs && list[1] == rhs);
    assert(ssa::data_of(kind, env) =~= seq![env[lhs], env[rhs]]);
}

/// What a known comparison has computed.
pub proof fn lemma_compare_known<D, M>(
    f: FuncView,
    m: Meaning<D, M>,
    b: BlockId,
    i: int,
    env: Map<ValueId, D>,
    v: ValueId,
    memory: M,
)
    requires
        verify::valid(f),
        fits(f),
        cfg::reachable(f, b),
        ssa::knows(f, m, b, i, env),
        ssa::is_known(f, v, b, i),
        patterns::compare_of(f, v) is Some,
    ensures
        ({
            let (op, lhs, rhs) = patterns::compare_of(f, v)->Some_0;
            &&& env[v] == of_compare(m, op, lhs, rhs, env[lhs], env[rhs], memory)
            &&& ssa::is_known(f, lhs, b, i)
            &&& ssa::is_known(f, rhs, b, i)
        }),
{
    let (op, lhs, rhs) = patterns::compare_of(f, v)->Some_0;
    let kind = KindView::ICompare { op, lhs, rhs };
    ssa::lemma_computed(f, m, b, i, env, v, kind, memory);
    let list = edit::operands(kind);
    assert(list[0] == lhs && list[1] == rhs);
    assert(ssa::data_of(kind, env) =~= seq![env[lhs], env[rhs]]);
}

/// A branch whose target has no other entry leads there.
proof fn lemma_sole_entry_leads(f: FuncView, p: BlockId, t: BlockId, way: bool)
    requires
        f.blocks.len() <= usize::MAX,
        conditions::is_sole_entry(f, p, t),
        patterns::branch_of(f, p) matches Some((_, x, y)) && x != y && t == (if way {
            x
        } else {
            y
        }),
    ensures
        ssa::leads(f, p, t, patterns::branch_of(f, p)->Some_0.0, way),
{
    assert forall|q: BlockId| f.has_block(q) && #[trigger] cfg::edge(f, q, t) implies q == p by {
        cfg::lemma_preds_below(f, t, f.blocks.len() as int, q);
        assert(seq![p].contains(q));
    }
}

/// The function has the values of the other one and a few constants more.
pub open spec fn extends(f: FuncView, g: FuncView) -> bool {
    &&& g == (FuncView { values: g.values, ..f })
    &&& g.values.len() >= f.values.len()
    &&& forall|v: ValueId| f.has_value(v) ==> #[trigger] g.value(v) == f.value(v)
}

proof fn lemma_found_const(f: FuncView, c: Const, from: int)
    requires
        f.values.len() <= usize::MAX,
    ensures
        util::find_const(f, c, from) matches Some(v) ==> f.has_value(v) && f.value(v).kind
            == ValueKindView::Const(c),
    decreases f.values.len() - from,
{
    if 0 <= from < f.values.len() && !util::is_const_value(f, from, c) {
        lemma_found_const(f, c, from + 1);
    }
}

/// The constant is there where it was asked for.
pub proof fn lemma_const_there(f: FuncView, c: Const)
    requires
        util::with_const(f, c).values.len() <= usize::MAX,
    ensures
        extends(f, util::with_const(f, c)),
        util::with_const(f, c).has_value(util::const_value(f, c)),
        util::with_const(f, c).value(util::const_value(f, c)).kind == ValueKindView::Const(c),
{
    lemma_found_const(f, c, 0);
}

// ---------------------------------------------------------------------------
// Comparisons
// ---------------------------------------------------------------------------

/// The fact comes from a branch of the function.
pub open spec fn is_fact(f: FuncView, fact: Fact, p: BlockId) -> bool {
    conditions::decision_of(f, p) matches Some((op, lhs, rhs, t, e)) && t != e && fact == (Fact {
        region: if fact.truth {
            t
        } else {
            e
        },
        op,
        lhs,
        rhs,
        truth: fact.truth,
    }) && conditions::is_sole_entry(f, p, fact.region)
}

proof fn lemma_fact_source(f: FuncView, n: int, k: int)
    requires
        f.blocks.len() <= usize::MAX,
        0 <= n <= f.blocks.len(),
        0 <= k < conditions::facts_below(f, n).len(),
    ensures
        exists|p: BlockId| f.has_block(p) && #[trigger] is_fact(f, conditions::facts_below(f, n)[k], p),
    decreases n,
{
    if n > 0 {
        let before = conditions::facts_below(f, n - 1);
        let p = BlockId((n - 1) as usize);
        let here = conditions::facts_at(f, p);
        if k < before.len() {
            lemma_fact_source(f, n - 1, k);
        } else {
            let fact = here[k - before.len()];
            assert(conditions::facts_below(f, n)[k] == fact);
            assert(is_fact(f, fact, p));
        }
    }
}

proof fn lemma_outcome_source(
    f: FuncView,
    facts: Seq<Fact>,
    b: BlockId,
    op: CompareOp,
    lhs: ValueId,
    rhs: ValueId,
    k: int,
)
    requires
        0 <= k,
    ensures
        conditions::outcome_from(f, facts, b, op, lhs, rhs, k) matches Some(truth) ==> exists|j: int|
            0 <= j < facts.len() && cfg::dominates(f, (#[trigger] facts[j]).region, b)
                && conditions::decides(f, facts[j], op, lhs, rhs) && facts[j].truth == truth,
    decreases facts.len() - k,
{
    if k < facts.len() && !(cfg::dominates(f, facts[k].region, b) && conditions::decides(
        f,
        facts[k],
        op,
        lhs,
        rhs,
    )) {
        lemma_outcome_source(f, facts, b, op, lhs, rhs, k + 1);
    }
}

/// Equal operands stand for equal numbers.
proof fn lemma_equal_numbers<D, M>(
    f: FuncView,
    m: Meaning<D, M>,
    number: spec_fn(D) -> i32,
    env: Map<ValueId, D>,
    a: ValueId,
    b: ValueId,
)
    requires
        computes_integers(m, number),
        constants_kept(f, m, env),
        conditions::is_equal(f, a, b),
    ensures
        number(env[a]) == number(env[b]),
{
    lemma_const_number(f, m, number, env, a);
    lemma_const_number(f, m, number, env, b);
}

/// A branch goes the way that the facts say.
proof fn lemma_outcome_holds<D, M>(
    f: FuncView,
    m: Meaning<D, M>,
    number: spec_fn(D) -> i32,
    b: BlockId,
    env: Map<ValueId, D>,
    memory: M,
)
    requires
        verify::valid(f),
        fits(f),
        entered_once(f),
        computes_integers(m, number),
        f.has_block(b),
        cfg::reachable(f, b),
        ssa::knows(f, m, b, f.block(b).insts.len() as int, env),
    ensures
        conditions::outcome_at(f, conditions::facts_of(f), b) matches Some(truth)
            ==> patterns::branch_of(f, b) matches Some((cond, _, _)) && (m.truth)(env[cond])
            == truth,
{
    let facts = conditions::facts_of(f);
    let n = f.block(b).insts.len() as int;
    if let Some(truth) = conditions::outcome_at(f, facts, b) {
        let (op, lhs, rhs, _, _) = conditions::decision_of(f, b)->Some_0;
        let cond = patterns::branch_of(f, b)->Some_0.0;
        lemma_outcome_source(f, facts, b, op, lhs, rhs, 0);
        let j = choose|j: int|
            0 <= j < facts.len() && cfg::dominates(f, (#[trigger] facts[j]).region, b)
                && conditions::decides(f, facts[j], op, lhs, rhs) && facts[j].truth == truth;
        lemma_fact_source(f, f.blocks.len() as int, j);
        let fact = facts[j];
        let p = choose|p: BlockId| f.has_block(p) && #[trigger] is_fact(f, fact, p);
        let c = patterns::branch_of(f, p)->Some_0.0;
        lemma_sole_entry_leads(f, p, fact.region, fact.truth);
        query::lemma_terminator_wf(f, p);
        query::lemma_terminator_wf(f, b);
        assert(ssa::leads(f, p, fact.region, c, fact.truth));
        assert((m.truth)(env[c]) == fact.truth && constants_kept(f, m, env)) by {
            reveal(ssa::knows);
        }
        ssa::lemma_condition_known(f, p, fact.region, c, fact.truth, b, n);
        lemma_compare_known(f, m, b, n, env, c, memory);
        assert(verify::block_valid(f, b));
        let reads = edit::terminator_reads(f.terminator(b));
        assert(reads[0] == cond);
        assert(verify::available(f, cond, b, verify::block_end(f, b)));
        ssa::lemma_available_is_known(f, cond, b, n);
        lemma_compare_known(f, m, b, n, env, cond, memory);
        if fact.op == op && conditions::is_equal(f, fact.lhs, lhs) && conditions::is_equal(
            f,
            fact.rhs,
            rhs,
        ) {
            lemma_equal_numbers(f, m, number, env, fact.lhs, lhs);
            lemma_equal_numbers(f, m, number, env, fact.rhs, rhs);
        } else {
            lemma_equal_numbers(f, m, number, env, fact.lhs, rhs);
            lemma_equal_numbers(f, m, number, env, fact.rhs, lhs);
            patterns::mirrored_and_inverted_comparisons(
                fact.op,
                number(env[fact.lhs]) as int,
                number(env[fact.rhs]) as int,
            );
        }
    }
}

proof fn lemma_folds(f: FuncView, facts: Seq<Fact>, n: int)
    requires
        f.blocks.len() <= usize::MAX,
        0 <= n <= f.blocks.len(),
    ensures
        forall|k: int|
            0 <= k < conditions::folds_below(f, facts, n).len() ==> f.has_block(
                (#[trigger] conditions::folds_below(f, facts, n)[k]).block,
            ) && conditions::outcome_at(f, facts, conditions::folds_below(f, facts, n)[k].block)
                == Some(conditions::folds_below(f, facts, n)[k].truth),
    decreases n,
{
    if n > 0 {
        lemma_folds(f, facts, n - 1);
    }
}

/// The terminator is kept, or the branch is on the constant for its outcome.
pub open spec fn is_decided(
    f: FuncView,
    g: FuncView,
    folds: Seq<Fold>,
    no: ValueId,
    yes: ValueId,
    b: BlockId,
) -> bool {
    g.terminator(b) == f.terminator(b) || exists|k: int|
        0 <= k < folds.len() && (#[trigger] folds[k]).block == b && (patterns::branch_of(f, b) matches Some(
            (_, t, e),
        ) && g.terminator(b) == Some(
            Terminator::Branch {
                cond: if folds[k].truth {
                    yes
                } else {
                    no
                },
                then_target: t,
                else_target: e,
            },
        ))
}

proof fn lemma_branches_decided(
    f: FuncView,
    g: FuncView,
    folds: Seq<Fold>,
    no: ValueId,
    yes: ValueId,
    k: int,
)
    requires
        extends(f, g),
        0 <= k <= folds.len(),
        forall|j: int| 0 <= j < folds.len() ==> f.has_block((#[trigger] folds[j]).block),
    ensures
        ({
            let h = conditions::branches_decided(f, g, folds, no, yes, k);
            &&& h == (FuncView { blocks: h.blocks, ..g })
            &&& h.blocks.len() == f.blocks.len()
            &&& forall|b: BlockId| #[trigger]
                f.has_block(b) ==> h.block(b).insts == f.block(b).insts
            &&& forall|b: BlockId|
                f.has_block(b) ==> #[trigger] is_decided(f, h, folds, no, yes, b)
        }),
    decreases k,
{
    reveal(emit::ended);
    if k > 0 {
        lemma_branches_decided(f, g, folds, no, yes, k - 1);
        let before = conditions::branches_decided(f, g, folds, no, yes, k - 1);
        let h = conditions::branches_decided(f, g, folds, no, yes, k);
        let fold = folds[k - 1];
        assert forall|b: BlockId|
            f.has_block(b) implies #[trigger] is_decided(f, h, folds, no, yes, b) by {
            assert(is_decided(f, before, folds, no, yes, b));
            if b == fold.block {
                if patterns::branch_of(f, b) is Some {
                    assert(folds[k - 1].block == b);
                }
            } else {
                assert(h.terminator(b) == before.terminator(b));
            }
        }
    }
}

/// Deciding comparisons that an earlier branch has decided keeps what every call
/// returns, wherever comparisons compare numbers. Nothing may lead to the entry
/// block.
pub proof fn folding_conditions_keeps_the_meaning<D, M>(
    f: FuncView,
    m: Meaning<D, M>,
    number: spec_fn(D) -> i32,
    args: Map<ValueId, D>,
    memory: M,
    out: State<D, M>,
)
    requires
        verify::valid(f),
        fits(f),
        entered_once(f),
        m.computes_apart_from_memory(),
        computes_integers(m, number),
        conditions::conditions_folded(f).values.len() <= usize::MAX,
    ensures
        semantics::yields(conditions::conditions_folded(f), m, args, memory, out)
            == semantics::yields(f, m, args, memory, out),
        rewriting::same_frame(f, conditions::conditions_folded(f)),
        cfg::same_edges(f, conditions::conditions_folded(f)),
{
    let facts = conditions::facts_of(f);
    let folds = conditions::folds_below(f, facts, f.blocks.len() as int);
    let h = conditions::conditions_folded(f);
    if f.blocks.len() > conditions::MAX_BLOCKS || facts.len() > conditions::MAX_FACTS || facts.len()
        * f.blocks.len() > conditions::MAX_PROOF_WORK || folds.len() == 0 {
        assert(h == f);
    } else {
        let no = util::const_value(f, Const::Bool(false));
        let g1 = if conditions::has_outcome(folds, false) {
            util::with_const(f, Const::Bool(false))
        } else {
            f
        };
        let yes = util::const_value(g1, Const::Bool(true));
        let g2 = if conditions::has_outcome(folds, true) {
            util::with_const(g1, Const::Bool(true))
        } else {
            g1
        };
        lemma_folds(f, facts, f.blocks.len() as int);
        lemma_values_kept(f, g2, folds, no, yes, folds.len() as int);
        if conditions::has_outcome(folds, true) {
            lemma_const_there(g1, Const::Bool(true));
        }
        if conditions::has_outcome(folds, false) {
            lemma_const_there(f, Const::Bool(false));
        }
        assert(extends(f, g2)) by {
            assert forall|v: ValueId| f.has_value(v) implies #[trigger] g2.value(v) == f.value(
                v,
            ) by {
                assert(g1.has_value(v));
                assert(g1.value(v) == f.value(v));
            }
        }
        lemma_branches_decided(f, g2, folds, no, yes, folds.len() as int);
        assert forall|v: ValueId| f.has_value(v) implies #[trigger] h.value(v) == f.value(v) by {
            assert(g2.value(v) == f.value(v));
        }
        assert forall|b: BlockId, i: int| f.has_inst(b, i) implies (#[trigger] h.inst(b, i))
            == f.inst(b, i) by {
            assert(f.has_block(b));
        }
        assert(rewriting::same_frame(f, h));
        assert(cfg::same_edges(f, h)) by {
            assert forall|b: int| 0 <= b < f.blocks.len() implies cfg::succ_list(
                (#[trigger] f.blocks[b]).terminator,
            ) == cfg::succ_list(h.blocks[b].terminator) by {
                let id = BlockId(b as usize);
                assert(f.has_block(id));
                assert(is_decided(f, h, folds, no, yes, id));
                assert(h.terminator(id) == h.blocks[b].terminator);
                assert(f.terminator(id) == f.blocks[b].terminator);
            }
        }
        assert forall|b: BlockId, env: Map<ValueId, D>, data: Map<ValueId, D>|
            f.has_block(b) && h.terminator(b) != f.terminator(b) implies #[trigger] end_stands(
            f,
            h,
            m,
            missing(f),
            b,
            env,
            data,
        ) by {
            let n = f.block(b).insts.len() as int;
            if side_by_side(f, h, m, missing(f), b, n, env, data) {
                assert(is_decided(f, h, folds, no, yes, b));
                let (cond, t, e) = patterns::branch_of(f, b)->Some_0;
                let k = choose|k: int|
                    0 <= k < folds.len() && (#[trigger] folds[k]).block == b && (
                    patterns::branch_of(f, b) matches Some((_, t, e)) && h.terminator(b) == Some(
                        Terminator::Branch {
                            cond: if folds[k].truth {
                                yes
                            } else {
                                no
                            },
                            then_target: t,
                            else_target: e,
                        },
                    ));
                let truth = folds[k].truth;
                lemma_outcome_holds(f, m, number, b, env, memory);
                assert((m.truth)(env[cond]) == truth);
                assert(conditions::has_outcome(folds, truth));
                if truth {
                    assert(h.value(yes).kind == ValueKindView::Const(Const::Bool(true)));
                    assert(data[yes] == (m.constant)(Const::Bool(true)));
                } else {
                    assert(g1.value(no).kind == ValueKindView::Const(Const::Bool(false)));
                    assert(g1.has_value(no));
                    assert(g2.value(no) == g1.value(no));
                    assert(h.value(no).kind == ValueKindView::Const(Const::Bool(false)));
                    assert(data[no] == (m.constant)(Const::Bool(false)));
                }
            }
        }
        rewriting::editing_keeps_the_meaning(f, h, m, args, memory, out);
    }
}

/// Deciding branches adds no values.
proof fn lemma_values_kept(
    f: FuncView,
    g: FuncView,
    folds: Seq<Fold>,
    no: ValueId,
    yes: ValueId,
    k: int,
)
    ensures
        conditions::branches_decided(f, g, folds, no, yes, k).values == g.values,
    decreases k,
{
    reveal(emit::ended);
    if k > 0 {
        lemma_values_kept(f, g, folds, no, yes, k - 1);
    }
}

// ---------------------------------------------------------------------------
// Divisions of small numbers
// ---------------------------------------------------------------------------

/// The range of a value holds of it where the value is there.
proof fn lemma_range_holds<D, M>(
    f: FuncView,
    m: Meaning<D, M>,
    number: spec_fn(D) -> i32,
    b: BlockId,
    i: int,
    env: Map<ValueId, D>,
    v: ValueId,
    memory: M,
)
    requires
        verify::valid(f),
        fits(f),
        computes_integers(m, number),
        cfg::reachable(f, b),
        ssa::knows(f, m, b, i, env),
        ssa::is_known(f, v, b, i),
    ensures
        ranges::range_of(f, v) matches Some(range) ==> env[v] == m.integer(number(env[v]))
            && range.min <= number(env[v]) <= range.max,
{
    assert(constants_kept(f, m, env)) by {
        reveal(ssa::knows);
    }
    lemma_const_number(f, m, number, env, v);
    if let Some(range) = ranges::range_of(f, v) {
        if let Some(c) = util::const_i32_of(f, v) {
            assert(env[v] == m.integer(c));
        } else {
            let (op, lhs, rhs) = patterns::binary_of(f, v)->Some_0;
            lemma_binary_known(f, m, b, i, env, v, memory);
            lemma_const_number(f, m, number, env, lhs);
            lemma_const_number(f, m, number, env, rhs);
            let x = number(env[lhs]);
            let y = number(env[rhs]);
            if op == BinaryOp::Imod {
                range_integer::remainders_lie_in_their_range(x as int, y as int);
            } else {
                assert(y >= 0 ==> 0 <= x & y <= y) by (bit_vector);
                assert(x >= 0 ==> 0 <= x & y <= x) by (bit_vector);
            }
        }
    }
}

/// A division of a small number gives what replaces it.
proof fn lemma_removal_holds<D, M>(
    f: FuncView,
    m: Meaning<D, M>,
    number: spec_fn(D) -> i32,
    b: BlockId,
    i: int,
    env: Map<ValueId, D>,
    v: ValueId,
    memory: M,
)
    requires
        verify::valid(f),
        fits(f),
        computes_integers(m, number),
        cfg::reachable(f, b),
        ssa::knows(f, m, b, i, env),
        ssa::is_known(f, v, b, i),
        patterns::binary_of(f, v) matches Some((op, lhs, rhs)) && (op is Idiv || op is Imod)
            && ranges::is_small(f, ranges::ranges_of(f), lhs, rhs),
    ensures
        ({
            let (op, lhs, rhs) = patterns::binary_of(f, v)->Some_0;
            &&& op is Imod ==> env[v] == env[lhs]
            &&& op is Idiv ==> env[v] == m.integer(0)
            &&& ssa::is_known(f, lhs, b, i)
        }),
{
    assert(constants_kept(f, m, env)) by {
        reveal(ssa::knows);
    }
    let (op, lhs, rhs) = patterns::binary_of(f, v)->Some_0;
    lemma_binary_known(f, m, b, i, env, v, memory);
    lemma_const_number(f, m, number, env, rhs);
    assert(ranges::ranges_of(f)[lhs.0 as int] == ranges::range_of(f, lhs));
    lemma_range_holds(f, m, number, b, i, env, lhs, memory);
    range_integer::small_numbers_need_no_division(
        number(env[lhs]) as int,
        number(env[rhs]) as int,
    );
}

/// The list holds the divisions of `f` that need none.
pub open spec fn are_removals(f: FuncView, list: Seq<ranges::Removal>) -> bool {
    forall|k: int|
        0 <= k < list.len() ==> f.has_inst((#[trigger] list[k]).block, list[k].index as int)
            && ranges::removal_at(f, ranges::ranges_of(f), list[k].block, list[k].index as int)
            == Some(list[k])
}

proof fn lemma_block_removals(f: FuncView, b: BlockId, n: int)
    requires
        fits(f),
        f.has_block(b),
        0 <= n <= f.block(b).insts.len(),
    ensures
        are_removals(f, ranges::block_removals(f, ranges::ranges_of(f), b, n)),
    decreases n,
{
    if n > 0 {
        lemma_block_removals(f, b, n - 1);
        assert(f.block(b).insts.len() <= usize::MAX);
        let before = ranges::block_removals(f, ranges::ranges_of(f), b, n - 1);
        let list = ranges::block_removals(f, ranges::ranges_of(f), b, n);
        assert forall|k: int| 0 <= k < list.len() implies f.has_inst(
            (#[trigger] list[k]).block,
            list[k].index as int,
        ) && ranges::removal_at(f, ranges::ranges_of(f), list[k].block, list[k].index as int)
            == Some(list[k]) by {
            if k < before.len() {
                assert(list[k] == before[k]);
            }
        }
    }
}

proof fn lemma_removals(f: FuncView, n: int)
    requires
        fits(f),
        0 <= n <= f.blocks.len(),
    ensures
        are_removals(f, ranges::removals_below(f, ranges::ranges_of(f), n)),
    decreases n,
{
    if n > 0 {
        lemma_removals(f, n - 1);
        let b = BlockId((n - 1) as usize);
        lemma_block_removals(f, b, f.block(b).insts.len() as int);
        let before = ranges::removals_below(f, ranges::ranges_of(f), n - 1);
        let here = ranges::block_removals(
            f,
            ranges::ranges_of(f),
            b,
            f.block(b).insts.len() as int,
        );
        let list = ranges::removals_below(f, ranges::ranges_of(f), n);
        assert forall|k: int| 0 <= k < list.len() implies f.has_inst(
            (#[trigger] list[k]).block,
            list[k].index as int,
        ) && ranges::removal_at(f, ranges::ranges_of(f), list[k].block, list[k].index as int)
            == Some(list[k]) by {
            if k < before.len() {
                assert(list[k] == before[k]);
            } else {
                assert(list[k] == here[k - before.len()]);
            }
        }
    }
}

/// The map gives for `v` what stands for a division of the list.
pub open spec fn is_mapped(
    list: Seq<ranges::Removal>,
    map: Map<ValueId, ValueId>,
    zero: ValueId,
    v: ValueId,
) -> bool {
    map.contains_key(v) ==> exists|k: int|
        0 <= k < list.len() && (#[trigger] list[k]).result == v && map[v] == (match list[k].rest {
            Some(x) => x,
            None => zero,
        })
}

proof fn lemma_rests_mapped(list: Seq<ranges::Removal>, zero: ValueId, k: int, v: ValueId)
    requires
        0 <= k <= list.len(),
    ensures
        is_mapped(list, ranges::rests_mapped(list, k), zero, v),
    decreases k,
{
    if k > 0 {
        lemma_rests_mapped(list, zero, k - 1, v);
        assert(list[k - 1] == list[k - 1]);
    }
}

proof fn lemma_zeros_mapped(
    list: Seq<ranges::Removal>,
    map: Map<ValueId, ValueId>,
    zero: ValueId,
    k: int,
    v: ValueId,
)
    requires
        0 <= k <= list.len(),
        is_mapped(list, map, zero, v),
    ensures
        is_mapped(list, ranges::zeros_mapped(list, map, zero, k), zero, v),
    decreases k,
{
    if k > 0 {
        lemma_zeros_mapped(list, map, zero, k - 1, v);
        assert(list[k - 1] == list[k - 1]);
    }
}

/// The place is that of one of the first `k` divisions.
pub open spec fn is_listed(list: Seq<ranges::Removal>, k: int, b: BlockId, i: int) -> bool {
    exists|j: int|
        0 <= j < k && (#[trigger] list[j]).block == b && list[j].index as int == i
}

proof fn lemma_removed(f: FuncView, g: FuncView, list: Seq<ranges::Removal>, k: int)
    requires
        g.blocks.len() == f.blocks.len(),
        forall|b: BlockId| #[trigger]
            f.has_block(b) ==> g.block(b).insts.len() == f.block(b).insts.len(),
        are_removals(f, list),
        0 <= k <= list.len(),
    ensures
        ({
            let h = ranges::removed_below(g, list, k);
            &&& h == (FuncView { blocks: h.blocks, ..g })
            &&& h.blocks.len() == g.blocks.len()
            &&& forall|b: BlockId| #[trigger]
                f.has_block(b) ==> h.block(b).insts.len() == f.block(b).insts.len()
                    && h.terminator(b) == g.terminator(b)
            &&& forall|b: BlockId, i: int|
                f.has_inst(b, i) ==> #[trigger] h.inst(b, i) == (if is_listed(list, k, b, i) {
                    edit::nop()
                } else {
                    g.inst(b, i)
                })
        }),
    decreases k,
{
    if k > 0 {
        lemma_removed(f, g, list, k - 1);
        let before = ranges::removed_below(g, list, k - 1);
        let h = ranges::removed_below(g, list, k);
        let r = list[k - 1];
        assert(f.has_inst(r.block, r.index as int));
        assert(f.has_block(r.block));
        assert(before.block(r.block).insts.len() == f.block(r.block).insts.len());
        assert forall|b: BlockId, i: int| f.has_inst(b, i) implies #[trigger] h.inst(b, i) == (
        if is_listed(list, k, b, i) {
            edit::nop()
        } else {
            g.inst(b, i)
        }) by {
            assert(f.has_block(b));
            assert(before.inst(b, i) == (if is_listed(list, k - 1, b, i) {
                edit::nop()
            } else {
                g.inst(b, i)
            }));
            if is_listed(list, k, b, i) {
                let j = choose|j: int|
                    0 <= j < k && (#[trigger] list[j]).block == b && list[j].index as int == i;
                if j < k - 1 {
                    assert(is_listed(list, k - 1, b, i));
                }
            }
            if is_listed(list, k - 1, b, i) {
                let j = choose|j: int|
                    0 <= j < k - 1 && (#[trigger] list[j]).block == b && list[j].index as int == i;
                assert(is_listed(list, k, b, i));
            }
            if b == r.block && i == r.index {
                assert(list[k - 1].block == b);
                assert(is_listed(list, k, b, i));
            }
        }
    }
}

/// What a value is resolved to holds the same.
proof fn lemma_small_resolved<D, M>(
    f: FuncView,
    m: Meaning<D, M>,
    number: spec_fn(D) -> i32,
    list: Seq<ranges::Removal>,
    map: Map<ValueId, ValueId>,
    zero: ValueId,
    fuel: nat,
    b: BlockId,
    i: int,
    env: Map<ValueId, D>,
    v: ValueId,
    memory: M,
)
    requires
        verify::valid(f),
        fits(f),
        computes_integers(m, number),
        cfg::reachable(f, b),
        ssa::knows(f, m, b, i, env),
        are_removals(f, list),
        forall|p: ValueId| #[trigger] is_mapped(list, map, zero, p),
        f.has_value(zero) ==> f.value(zero).kind == ValueKindView::Const(Const::Int(0)),
        ssa::is_known(f, v, b, i),
    ensures
        ({
            let r = util::resolve(map, v, fuel);
            if f.has_value(r) {
                env[v] == env[r]
            } else {
                r == zero && env[v] == m.integer(0)
            }
        }),
    decreases fuel,
{
    if fuel > 0 && map.contains_key(v) && map[v] != v {
        assert(is_mapped(list, map, zero, v));
        let k = choose|k: int|
            0 <= k < list.len() && (#[trigger] list[k]).result == v && map[v] == (
            match list[k].rest {
                Some(x) => x,
                None => zero,
            });
        let r = list[k];
        let at = r.index as int;
        assert(f.has_inst(r.block, at));
        assert(f.has_block(r.block));
        assert(verify::block_valid(f, r.block));
        assert(verify::inst_valid(f, r.block, at));
        assert(f.value(v).kind == ValueKindView::Inst(r.block, r.index));
        lemma_removal_holds(f, m, number, b, i, env, v, memory);
        if r.rest is Some {
            lemma_small_resolved(
                f,
                m,
                number,
                list,
                map,
                zero,
                (fuel - 1) as nat,
                b,
                i,
                env,
                map[v],
                memory,
            );
        } else {
            assert(!map.contains_key(zero)) by {
                assert(is_mapped(list, map, zero, zero));
                if map.contains_key(zero) {
                    let j = choose|j: int|
                        0 <= j < list.len() && (#[trigger] list[j]).result == zero && map[zero] == (
                        match list[j].rest {
                            Some(x) => x,
                            None => zero,
                        });
                    let x = list[j].index as int;
                    assert(f.has_inst(list[j].block, x));
                    assert(f.has_block(list[j].block));
                    assert(verify::block_valid(f, list[j].block));
                    assert(verify::inst_valid(f, list[j].block, x));
                    query::lemma_inst_wf(f, list[j].block, x);
                }
            }
            assert(util::resolve(map, zero, (fuel - 1) as nat) == zero);
            assert(constants_kept(f, m, env)) by {
                reveal(ssa::knows);
            }
        }
    }
}

/// Replacing the divisions of small numbers by their results keeps what every
/// call returns, wherever integer operations compute with numbers.
#[verifier::rlimit(40)]
pub proof fn replacing_divisions_keeps_the_meaning<D, M>(
    f: FuncView,
    m: Meaning<D, M>,
    number: spec_fn(D) -> i32,
    args: Map<ValueId, D>,
    memory: M,
    out: State<D, M>,
)
    requires
        verify::valid(f),
        verify::valid(ranges::divisions_replaced(f, ranges::ranges_of(f))),
        fits(f),
        entered_once(f),
        m.computes_apart_from_memory(),
        computes_integers(m, number),
        ranges::divisions_replaced(f, ranges::ranges_of(f)).values.len() <= usize::MAX,
    ensures
        semantics::yields(
            ranges::divisions_replaced(f, ranges::ranges_of(f)),
            m,
            args,
            memory,
            out,
        ) == semantics::yields(f, m, args, memory, out),
{
    let list = ranges::removals_of(f, ranges::ranges_of(f));
    let n = list.len() as int;
    let h = ranges::divisions_replaced(f, ranges::ranges_of(f));
    if n > 0 {
        lemma_removals(f, f.blocks.len() as int);
        let rests = ranges::rests_mapped(list, n);
        let zero = util::const_value(f, Const::Int(0));
        let some = ranges::has_quotient(list);
        let g = if some {
            util::with_const(f, Const::Int(0))
        } else {
            f
        };
        let map = if some {
            ranges::zeros_mapped(list, rests, zero, n)
        } else {
            rests
        };
        let rho = util::resolver(map, g.values.len());
        let base = util::map_uses(g, rho);
        assert forall|p: ValueId| #[trigger] is_mapped(list, map, zero, p) by {
            lemma_rests_mapped(list, zero, n, p);
            lemma_zeros_mapped(list, rests, zero, n, p);
        }
        assert forall|b: BlockId| #[trigger] f.has_block(b) implies base.block(b).insts.len()
            == f.block(b).insts.len() && base.terminator(b) == util::map_terminator(
            f.terminator(b),
            rho,
        ) by {
            assert(g.blocks == f.blocks);
        }
        lemma_removed(f, base, list, n);
        assert(h == ranges::removed_below(base, list, n));
        assert(h.values == g.values);
        if some {
            lemma_const_there(f, Const::Int(0));
        } else {
            assert(f.values.len() <= usize::MAX);
        }
        lemma_found_const(f, Const::Int(0), 0);
        let unread = Set::new(
            |v: ValueId|
                !f.has_value(v) || exists|k: int|
                    0 <= k < list.len() && (#[trigger] list[k]).result == v,
        );
        assert forall|b: BlockId, i: int| f.has_inst(b, i) implies #[trigger] h.inst(b, i)
            == util::map_inst(f.inst(b, i), rho) || (h.inst(b, i) == edit::nop()
            && rewriting::is_removable(f.inst(b, i), unread)) by {
            assert(f.has_block(b));
            assert(base.inst(b, i) == util::map_inst(f.inst(b, i), rho));
            if is_listed(list, n, b, i) {
                let j = choose|j: int|
                    0 <= j < n && (#[trigger] list[j]).block == b && list[j].index as int == i;
                assert(ranges::removal_at(f, ranges::ranges_of(f), b, i) == Some(list[j]));
                assert(unread.contains(list[j].result));
            }
        }
        assert forall|v: ValueId| f.has_value(v) implies #[trigger] h.value(v) == f.value(v) by {
            assert(g.value(v) == f.value(v));
        }
        assert(rewriting::renamed(f, h, rho, unread));
        assert forall|b: BlockId, i: int, env: Map<ValueId, D>, data: Map<ValueId, D>, v: ValueId|
            f.has_block(b) && 0 <= i
                <= f.block(b).insts.len() implies #[trigger] rewriting::same_read(
            f,
            h,
            m,
            rho,
            unread,
            b,
            i,
            env,
            data,
            v,
        ) by {
            if side_by_side(f, h, m, unread, b, i, env, data) && f.has_value(v) && h.has_value(
                rho(v),
            ) && verify::available(f, v, b, i) && verify::available(h, rho(v), b, i) {
                ssa::lemma_available_is_known(f, v, b, i);
                lemma_small_resolved(
                    f,
                    m,
                    number,
                    list,
                    map,
                    zero,
                    g.values.len(),
                    b,
                    i,
                    env,
                    v,
                    memory,
                );
                let r = rho(v);
                if f.has_value(r) {
                    lemma_still_there(f, h, list, unread, r);
                    assert(env[r] == data[r]);
                } else {
                    assert(some);
                    assert(h.value(r).kind == ValueKindView::Const(Const::Int(0)));
                    assert(data[r] == m.integer(0));
                }
            }
        }
        rewriting::renaming_keeps_the_meaning(f, h, m, rho, unread, args, memory, out);
    }
}

/// A value that the new function defines is none of those that it lacks.
proof fn lemma_still_there(
    f: FuncView,
    h: FuncView,
    list: Seq<ranges::Removal>,
    unread: Set<ValueId>,
    r: ValueId,
)
    requires
        verify::valid(f),
        f.has_value(r),
        h.value(r) == f.value(r),
        verify::defined(h, r),
        are_removals(f, list),
        forall|b: BlockId, i: int|
            f.has_inst(b, i) && is_listed(list, list.len() as int, b, i) ==> #[trigger] h.inst(b, i)
                == edit::nop(),
        forall|v: ValueId| #[trigger]
            unread.contains(v) ==> !f.has_value(v) || exists|k: int|
                0 <= k < list.len() && (#[trigger] list[k]).result == v,
    ensures
        !unread.contains(r),
{
    if unread.contains(r) {
        let k = choose|k: int| 0 <= k < list.len() && (#[trigger] list[k]).result == r;
        let b = list[k].block;
        let i = list[k].index as int;
        assert(f.has_inst(b, i));
        assert(f.has_block(b));
        assert(verify::block_valid(f, b));
        assert(verify::inst_valid(f, b, i));
        assert(is_listed(list, list.len() as int, b, i));
        assert(h.inst(b, i) == edit::nop());
    }
}

// ---------------------------------------------------------------------------
// Divisions of multiples
// ---------------------------------------------------------------------------

/// The bits come from the branch of block `p`.
pub open spec fn is_zero_fact(f: FuncView, z: divisions::ZeroBits, p: BlockId) -> bool {
    divisions::zero_bits_at(f, p) == Some(z)
}

proof fn lemma_zero_source(f: FuncView, n: int, k: int)
    requires
        f.blocks.len() <= usize::MAX,
        0 <= n <= f.blocks.len(),
        0 <= k < divisions::zero_bits_below(f, n).len(),
    ensures
        exists|p: BlockId|
            f.has_block(p) && #[trigger] is_zero_fact(f, divisions::zero_bits_below(f, n)[k], p),
    decreases n,
{
    if n > 0 {
        let before = divisions::zero_bits_below(f, n - 1);
        let p = BlockId((n - 1) as usize);
        if k < before.len() {
            lemma_zero_source(f, n - 1, k);
            assert(divisions::zero_bits_below(f, n)[k] == before[k]);
        } else {
            assert(is_zero_fact(f, divisions::zero_bits_below(f, n)[k], p));
        }
    }
}

/// Where bits are known to be zero, the number is a multiple.
proof fn lemma_zero_bits_hold<D, M>(
    f: FuncView,
    m: Meaning<D, M>,
    number: spec_fn(D) -> i32,
    b: BlockId,
    i: int,
    env: Map<ValueId, D>,
    v: ValueId,
    s: u32,
    memory: M,
)
    requires
        verify::valid(f),
        fits(f),
        entered_once(f),
        computes_integers(m, number),
        cfg::reachable(f, b),
        ssa::knows(f, m, b, i, env),
        s <= 30,
        divisions::are_zero(
            f,
            divisions::zero_bits_of(f),
            b,
            v,
            bits::low_bits(s) as u32,
        ),
    ensures
        number(env[v]) as int % pow2(s as nat) as int == 0,
{
    let list = divisions::zero_bits_of(f);
    let low = bits::low_bits(s);
    let k = choose|k: int|
        0 <= k < list.len() && (#[trigger] list[k]).value == v && list[k].mask & (low as u32) == (
        low as u32) && cfg::dominates(f, list[k].region, b);
    let z = list[k];
    lemma_zero_source(f, f.blocks.len() as int, k);
    let p = choose|p: BlockId| f.has_block(p) && #[trigger] is_zero_fact(f, z, p);
    let (cond, t, e) = patterns::branch_of(f, p)->Some_0;
    let (w, way) = divisions::zero_test_of(f, cond)->Some_0;
    lemma_sole_entry_leads(f, p, z.region, way);
    query::lemma_terminator_wf(f, p);
    assert(ssa::leads(f, p, z.region, cond, way));
    assert((m.truth)(env[cond]) == way && constants_kept(f, m, env)) by {
        reveal(ssa::knows);
    }
    ssa::lemma_condition_known(f, p, z.region, cond, way, b, i);
    lemma_compare_known(f, m, b, i, env, cond, memory);
    let (_, lhs, rhs) = patterns::compare_of(f, cond)->Some_0;
    lemma_const_number(f, m, number, env, lhs);
    lemma_const_number(f, m, number, env, rhs);
    assert(number(env[w]) == 0);
    lemma_binary_known(f, m, b, i, env, w, memory);
    let (op, x, y) = patterns::binary_of(f, w)->Some_0;
    lemma_const_number(f, m, number, env, x);
    lemma_const_number(f, m, number, env, y);
    let c = number(env[x]);
    let d = number(env[y]);
    bits::shifts_divide_multiples(number(env[v]), s);
    if op == BinaryOp::Iand {
        assert(c & d == 0);
        let mask = z.mask;
        if util::const_i32_of(f, y) is Some {
            assert(c & low == 0) by (bit_vector)
                requires
                    c & d == 0,
                    mask == d as u32,
                    mask & (low as u32) == low as u32,
            ;
        } else {
            assert(d & low == 0) by (bit_vector)
                requires
                    c & d == 0,
                    mask == c as u32,
                    mask & (low as u32) == low as u32,
            ;
        }
    } else {
        bits::shift_is_the_exponent(d as int, 0);
        let big = divisions::divisor_shift(d)->Some_0;
        bits::lemma_power(big);
        assert(z.mask == bits::low_bits(big) as u32);
        bits::lemma_masks_nested(s, big);
        range_integer::remainders_lie_in_their_range(c as int, d as int);
        assert(range_integer::remainder(c as int, d as int) == 0);
        lemma_no_remainder(c as int, d as int);
        bits::lemma_smaller_power(c as int, s as nat, big as nat);
    }
}

proof fn lemma_no_remainder(x: int, d: int)
    requires
        d > 0,
        range_integer::remainder(x, d) == 0,
    ensures
        x % d == 0,
{
    let q = range_integer::quotient(x, d);
    vstd::arithmetic::div_mod::lemma_fundamental_div_mod_converse(x, d, q, 0);
}

/// The list holds divisions of `f` that can be shifts.
pub open spec fn are_rewrites(f: FuncView, list: Seq<divisions::Rewrite>) -> bool {
    forall|k: int|
        0 <= k < list.len() ==> f.has_inst((#[trigger] list[k]).block, list[k].index as int)
            && divisions::rewrite_at(
            f,
            divisions::zero_bits_of(f),
            list[k].block,
            list[k].index as int,
        ) == Some(list[k])
}

proof fn lemma_block_rewrites(f: FuncView, b: BlockId, n: int)
    requires
        fits(f),
        f.has_block(b),
        0 <= n <= f.block(b).insts.len(),
    ensures
        are_rewrites(f, divisions::block_rewrites(f, divisions::zero_bits_of(f), b, n)),
    decreases n,
{
    if n > 0 {
        lemma_block_rewrites(f, b, n - 1);
        assert(f.block(b).insts.len() <= usize::MAX);
        let before = divisions::block_rewrites(f, divisions::zero_bits_of(f), b, n - 1);
        let list = divisions::block_rewrites(f, divisions::zero_bits_of(f), b, n);
        assert forall|k: int| 0 <= k < list.len() implies f.has_inst(
            (#[trigger] list[k]).block,
            list[k].index as int,
        ) && divisions::rewrite_at(
            f,
            divisions::zero_bits_of(f),
            list[k].block,
            list[k].index as int,
        ) == Some(list[k]) by {
            if k < before.len() {
                assert(list[k] == before[k]);
            }
        }
    }
}

proof fn lemma_rewrites(f: FuncView, n: int)
    requires
        fits(f),
        0 <= n <= f.blocks.len(),
    ensures
        are_rewrites(f, divisions::rewrites_below(f, divisions::zero_bits_of(f), n)),
    decreases n,
{
    if n > 0 {
        lemma_rewrites(f, n - 1);
        let b = BlockId((n - 1) as usize);
        let zeros = divisions::zero_bits_of(f);
        lemma_block_rewrites(f, b, f.block(b).insts.len() as int);
        let before = divisions::rewrites_below(f, zeros, n - 1);
        let here = divisions::block_rewrites(f, zeros, b, f.block(b).insts.len() as int);
        let list = divisions::rewrites_below(f, zeros, n);
        assert forall|k: int| 0 <= k < list.len() implies f.has_inst(
            (#[trigger] list[k]).block,
            list[k].index as int,
        ) && divisions::rewrite_at(f, zeros, list[k].block, list[k].index as int) == Some(
            list[k],
        ) by {
            if k < before.len() {
                assert(list[k] == before[k]);
            } else {
                assert(list[k] == here[k - before.len()]);
            }
        }
    }
}

/// The instruction is kept, or it is the shift for a division of the list.
pub open spec fn is_shifted(
    f: FuncView,
    g: FuncView,
    list: Seq<divisions::Rewrite>,
    b: BlockId,
    i: int,
) -> bool {
    g.inst(b, i) == f.inst(b, i) || exists|k: int|
        0 <= k < list.len() && (#[trigger] list[k]).block == b && list[k].index as int == i
            && g.inst(b, i).result == f.inst(b, i).result && (g.inst(b, i).kind matches KindView::Binary {
            op,
            lhs,
            rhs,
        } && op == BinaryOp::Iashr && lhs == list[k].lhs && g.has_value(rhs) && g.value(rhs).kind
            == ValueKindView::Const(Const::Int(list[k].shift as i32)))
}

proof fn lemma_shifting_adds(f: FuncView, list: Seq<divisions::Rewrite>, k: int)
    requires
        0 <= k < list.len(),
    ensures
        divisions::shifted_below(f, list, k + 1).values.len() >= divisions::shifted_below(
            f,
            list,
            k,
        ).values.len(),
        divisions::shifted_below(f, list, k + 1).values == util::with_const(
            divisions::shifted_below(f, list, k),
            Const::Int(list[k].shift as i32),
        ).values,
{
}

#[verifier::rlimit(40)]
proof fn lemma_shifted_below(f: FuncView, list: Seq<divisions::Rewrite>, k: int)
    requires
        are_rewrites(f, list),
        0 <= k <= list.len(),
        divisions::shifted_below(f, list, k).values.len() <= usize::MAX,
    ensures
        ({
            let h = divisions::shifted_below(f, list, k);
            &&& h == (FuncView { blocks: h.blocks, values: h.values, ..f })
            &&& h.blocks.len() == f.blocks.len()
            &&& h.values.len() >= f.values.len()
            &&& forall|v: ValueId| f.has_value(v) ==> #[trigger] h.value(v) == f.value(v)
            &&& forall|b: BlockId| #[trigger]
                f.has_block(b) ==> h.block(b).insts.len() == f.block(b).insts.len()
                    && h.terminator(b) == f.terminator(b)
            &&& forall|b: BlockId, i: int|
                f.has_inst(b, i) ==> #[trigger] is_shifted(f, h, list, b, i)
        }),
    decreases k,
{
    if k > 0 {
        lemma_shifting_adds(f, list, k - 1);
        lemma_shifted_below(f, list, k - 1);
        let before = divisions::shifted_below(f, list, k - 1);
        let h = divisions::shifted_below(f, list, k);
        let r = list[k - 1];
        let c = Const::Int(r.shift as i32);
        let g = util::with_const(before, c);
        lemma_const_there(before, c);
        assert(f.has_inst(r.block, r.index as int));
        assert(f.has_block(r.block));
        assert(before.block(r.block).insts.len() == f.block(r.block).insts.len());
        assert forall|v: ValueId| f.has_value(v) implies #[trigger] h.value(v) == f.value(v) by {
            assert(before.value(v) == f.value(v));
            assert(g.value(v) == before.value(v));
        }
        assert forall|b: BlockId, i: int| f.has_inst(b, i) implies #[trigger] is_shifted(
            f,
            h,
            list,
            b,
            i,
        ) by {
            assert(f.has_block(b));
            assert(is_shifted(f, before, list, b, i));
            if b == r.block && i == r.index {
                assert(list[k - 1].block == b);
            } else {
                assert(h.inst(b, i) == before.inst(b, i));
                if before.inst(b, i) != f.inst(b, i) {
                    let j = choose|j: int|
                        0 <= j < list.len() && (#[trigger] list[j]).block == b
                            && list[j].index as int == i && before.inst(b, i).result == f.inst(
                            b,
                            i,
                        ).result && (before.inst(b, i).kind matches KindView::Binary {
                            op,
                            lhs,
                            rhs,
                        } && op == BinaryOp::Iashr && lhs == list[j].lhs && before.has_value(rhs)
                            && before.value(rhs).kind == ValueKindView::Const(
                            Const::Int(list[j].shift as i32),
                        ));
                    let rhs = before.inst(b, i).kind->Binary_rhs;
                    assert(g.value(rhs) == before.value(rhs));
                    assert(h.value(rhs) == before.value(rhs));
                    assert(list[j].block == b);
                }
            }
        }
    }
}

/// The shift gives what the division gave.
proof fn lemma_shift_stands<D, M>(
    f: FuncView,
    h: FuncView,
    m: Meaning<D, M>,
    number: spec_fn(D) -> i32,
    list: Seq<divisions::Rewrite>,
    b: BlockId,
    i: int,
    env: Map<ValueId, D>,
    data: Map<ValueId, D>,
    memory: M,
)
    requires
        verify::valid(f),
        fits(f),
        entered_once(f),
        m.computes_apart_from_memory(),
        computes_integers(m, number),
        are_rewrites(f, list),
        f.has_inst(b, i),
        is_shifted(f, h, list, b, i),
        h.inst(b, i) != f.inst(b, i),
    ensures
        inst_stands(f, h, m, missing(f), b, i, env, data, memory),
{
    if side_by_side(f, h, m, missing(f), b, i, env, data) {
        let k = choose|k: int|
            0 <= k < list.len() && (#[trigger] list[k]).block == b && list[k].index as int == i
                && h.inst(b, i).result == f.inst(b, i).result && (h.inst(b, i).kind matches KindView::Binary {
                op,
                lhs,
                rhs,
            } && op == BinaryOp::Iashr && lhs == list[k].lhs && h.has_value(rhs) && h.value(
                rhs,
            ).kind == ValueKindView::Const(Const::Int(list[k].shift as i32)));
        let r = list[k];
        assert(divisions::rewrite_at(f, divisions::zero_bits_of(f), b, i) == Some(r));
        let old = f.inst(b, i).kind;
        let new = h.inst(b, i).kind;
        let (lhs, rhs) = (old->Binary_lhs, old->Binary_rhs);
        let by = new->Binary_rhs;
        let d = util::const_i32_of(f, rhs)->Some_0;
        bits::shift_is_the_exponent(d as int, 0);
        let s = r.shift;
        bits::lemma_power(s);
        assert(constants_kept(f, m, env)) by {
            reveal(ssa::knows);
        }
        lemma_const_number(f, m, number, env, rhs);
        lemma_const_number(h, m, number, data, by);
        query::lemma_inst_wf(f, b, i);
        assert(!missing(f).contains(lhs));
        assert(env[lhs] == data[lhs]);
        assert((d - 1) as u32 == bits::low_bits(s) as u32);
        lemma_zero_bits_hold(f, m, number, b, i, env, lhs, s, memory);
        bits::shifts_divide_multiples(number(env[lhs]), s);
        range_integer::quotients_of_multiples_are_exact(number(env[lhs]) as int, d as int);
        assert(ssa::data_of(old, env) =~= seq![env[lhs], env[rhs]]);
        assert(ssa::data_of(new, data) =~= seq![data[lhs], data[by]]);
        let x = m.of_two(BinaryOp::Idiv, lhs, rhs, env[lhs], env[rhs], memory);
        let y = m.of_two(BinaryOp::Iashr, lhs, by, data[lhs], data[by], memory);
        assert(x == y);
        ssa::lemma_shape_plain(old);
        ssa::lemma_shape_plain(new);
    }
}

/// Making shifts of the divisions of multiples keeps what every call returns,
/// wherever integer operations compute with numbers. Nothing may lead to the
/// entry block.
pub proof fn reducing_divisions_keeps_the_meaning<D, M>(
    f: FuncView,
    m: Meaning<D, M>,
    number: spec_fn(D) -> i32,
    args: Map<ValueId, D>,
    memory: M,
    out: State<D, M>,
)
    requires
        verify::valid(f),
        fits(f),
        entered_once(f),
        m.computes_apart_from_memory(),
        computes_integers(m, number),
        divisions::divisions_reduced(f).values.len() <= usize::MAX,
    ensures
        semantics::yields(divisions::divisions_reduced(f), m, args, memory, out)
            == semantics::yields(f, m, args, memory, out),
        rewriting::same_frame(f, divisions::divisions_reduced(f)),
        cfg::same_edges(f, divisions::divisions_reduced(f)),
{
    let zeros = divisions::zero_bits_of(f);
    let h = divisions::divisions_reduced(f);
    if !(f.blocks.len() > divisions::MAX_BLOCKS || zeros.len() * f.blocks.len()
        > divisions::MAX_PROOF_WORK) {
        let list = divisions::rewrites_below(f, zeros, f.blocks.len() as int);
        lemma_rewrites(f, f.blocks.len() as int);
        lemma_shifted_below(f, list, list.len() as int);
        assert forall|b: BlockId, i: int| f.has_inst(b, i) implies (#[trigger] h.inst(b, i)).result
            == f.inst(b, i).result && ((f.inst(b, i).kind is Phi || h.inst(b, i).kind is Phi)
            ==> h.inst(b, i) == f.inst(b, i)) by {
            assert(is_shifted(f, h, list, b, i));
            if h.inst(b, i) != f.inst(b, i) {
                let k = choose|k: int|
                    0 <= k < list.len() && (#[trigger] list[k]).block == b && list[k].index as int
                        == i && h.inst(b, i).result == f.inst(b, i).result && (h.inst(
                        b,
                        i,
                    ).kind matches KindView::Binary { op, lhs, rhs } && op == BinaryOp::Iashr && lhs
                        == list[k].lhs && h.has_value(rhs) && h.value(rhs).kind
                        == ValueKindView::Const(Const::Int(list[k].shift as i32)));
                assert(divisions::rewrite_at(f, zeros, b, i) == Some(list[k]));
            }
        }
        assert(rewriting::same_frame(f, h));
        assert(cfg::same_edges(f, h)) by {
            assert forall|b: int| 0 <= b < f.blocks.len() implies cfg::succ_list(
                (#[trigger] f.blocks[b]).terminator,
            ) == cfg::succ_list(h.blocks[b].terminator) by {
                let id = BlockId(b as usize);
                assert(f.has_block(id));
                assert(h.terminator(id) == f.terminator(id));
            }
        }
        assert(rewriting::edited(f, h, m)) by {
            assert forall|
                b: BlockId,
                i: int,
                env: Map<ValueId, D>,
                data: Map<ValueId, D>,
                memory: M,
            |
                f.has_inst(b, i) && h.inst(b, i) != f.inst(b, i) implies #[trigger] inst_stands(
                f,
                h,
                m,
                missing(f),
                b,
                i,
                env,
                data,
                memory,
            ) by {
                assert(is_shifted(f, h, list, b, i));
                lemma_shift_stands(f, h, m, number, list, b, i, env, data, memory);
            }
        }
        rewriting::editing_keeps_the_meaning(f, h, m, args, memory, out);
    }
}

// ---------------------------------------------------------------------------
// All three steps
// ---------------------------------------------------------------------------

proof fn lemma_frame_kept(f: FuncView, g: FuncView)
    requires
        fits(f),
        entered_once(f),
        rewriting::same_frame(f, g),
        cfg::same_edges(f, g),
    ensures
        fits(g),
        entered_once(g),
{
    assert forall|b: BlockId| #[trigger] g.has_block(b) implies g.block(b).insts.len()
        <= usize::MAX by {
        assert(f.has_block(b));
    }
    assert forall|q: BlockId| g.has_block(q) implies !#[trigger] cfg::edge(g, q, g.entry) by {
        assert(f.has_block(q));
        assert(!cfg::edge(f, q, f.entry));
        assert(f.terminator(q) == f.blocks[q.0 as int].terminator);
    }
}

/// The numbers of values fit the machine after each step that is kept.
pub open spec fn steps_fit(f: FuncView) -> bool {
    let g = range_integer::conditions_step(f);
    let h = range_integer::divisions_step(g);
    &&& g.values.len() <= usize::MAX
    &&& h.values.len() <= usize::MAX
    &&& range_integer::simplified(f).values.len() <= usize::MAX
}

/// The pass keeps what every call returns, wherever integer operations compute
/// with numbers. Nothing may lead to the entry block.
pub proof fn simplifying_integers_keeps_the_meaning<D, M>(
    f: FuncView,
    m: Meaning<D, M>,
    number: spec_fn(D) -> i32,
    args: Map<ValueId, D>,
    memory: M,
    out: State<D, M>,
)
    requires
        verify::valid(f),
        fits(f),
        steps_fit(f),
        entered_once(f),
        m.computes_apart_from_memory(),
        computes_integers(m, number),
    ensures
        semantics::yields(range_integer::simplified(f), m, args, memory, out)
            == semantics::yields(f, m, args, memory, out),
{
    let g = range_integer::conditions_step(f);
    let h = range_integer::divisions_step(g);
    if g != f {
        folding_conditions_keeps_the_meaning(f, m, number, args, memory, out);
        lemma_frame_kept(f, g);
    }
    if h != g {
        reducing_divisions_keeps_the_meaning(g, m, number, args, memory, out);
        lemma_frame_kept(g, h);
    }
    if range_integer::simplified(f) != h {
        replacing_divisions_keeps_the_meaning(h, m, number, args, memory, out);
    }
}

} // verus!
