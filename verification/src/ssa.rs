//! What holds of the values of a run: dominance along the way, and the
//! equations between values that have been computed.
use vstd::prelude::*;

use crate::cfg;
use crate::edit;
use crate::ir::{BlockId, FuncView, InstView, KindView, Terminator, ValueId, ValueKindView};
use crate::pass::simplify_cfg::meaning_laws;
use crate::pass::simplify_cfg::meaning_laws::constants_kept;
use crate::pass::simplify_cfg::select_laws::entered_once;
use crate::pass::simplify_cfg::threading_laws;
use crate::pass::simplify_cfg::threading_laws::{fits, next_block};
use crate::query;
use crate::semantics;
use crate::semantics::Meaning;
use crate::util;
use crate::verify;

verus! {

// ---------------------------------------------------------------------------
// Dominance
// ---------------------------------------------------------------------------

pub proof fn lemma_prefix(f: FuncView, path: Seq<BlockId>, to: BlockId, k: int)
    requires
        cfg::walk(cfg::succ_lists(f), path, f.entry, to, None),
        0 <= k < path.len(),
    ensures
        cfg::walk(cfg::succ_lists(f), path.take(k + 1), f.entry, path[k], None),
{
    let p = path.take(k + 1);
    let graph = cfg::succ_lists(f);
    assert forall|j: int| 0 <= j < p.len() implies (#[trigger] p[j]).0 < graph.len() && Some(p[j])
        != None::<BlockId> by {
        assert(p[j] == path[j]);
    }
    assert forall|j: int| 0 <= j < p.len() - 1 implies graph[(#[trigger] p[j]).0 as int].contains(
        p[j + 1],
    ) by {
        assert(p[j] == path[j]);
        assert(p[j + 1] == path[j + 1]);
    }
}

proof fn lemma_longer(f: FuncView, path: Seq<BlockId>, b: BlockId, t: BlockId)
    requires
        f.wf(),
        cfg::walk(cfg::succ_lists(f), path, f.entry, b, None),
        f.has_block(b),
        cfg::edge(f, b, t),
    ensures
        f.has_block(t),
        cfg::walk(cfg::succ_lists(f), path.push(t), f.entry, t, None),
{
    let graph = cfg::succ_lists(f);
    let p = path.push(t);
    query::lemma_terminator_wf(f, b);
    threading_laws::lemma_succ(f.terminator(b), t);
    assert forall|j: int| 0 <= j < p.len() - 1 implies graph[(#[trigger] p[j]).0 as int].contains(
        p[j + 1],
    ) by {
        if j < path.len() - 1 {
            assert(graph[path[j].0 as int].contains(path[j + 1]));
        } else {
            assert(p[j] == b);
        }
    }
}

/// Where control can pass to from a block that can be reached.
pub proof fn lemma_reachable_next(f: FuncView, b: BlockId, t: BlockId)
    requires
        f.wf(),
        cfg::reachable(f, b),
        f.has_block(b),
        cfg::edge(f, b, t),
    ensures
        f.has_block(t),
        cfg::reachable(f, t),
{
    let path = cfg::path_of(cfg::succ_lists(f), f.entry, b, None);
    lemma_longer(f, path, b, t);
}

proof fn lemma_antisymmetric(f: FuncView, a: BlockId, b: BlockId, path: Seq<BlockId>)
    requires
        cfg::dominates(f, a, b),
        cfg::dominates(f, b, a),
        cfg::walk(cfg::succ_lists(f), path, f.entry, a, None),
    ensures
        a == b,
    decreases path.len(),
{
    assert(path.contains(b));
    let j = choose|j: int| 0 <= j < path.len() && path[j] == b;
    if j < path.len() - 1 {
        lemma_prefix(f, path, a, j);
        let p = path.take(j + 1);
        assert(p.contains(a));
        let i = choose|i: int| 0 <= i < p.len() && p[i] == a;
        lemma_prefix(f, p, b, i);
        lemma_antisymmetric(f, a, b, p.take(i + 1));
    }
}

/// Two blocks that dominate each other are one.
pub proof fn dominance_is_antisymmetric(f: FuncView, a: BlockId, b: BlockId)
    requires
        cfg::dominates(f, a, b),
        cfg::dominates(f, b, a),
    ensures
        a == b,
{
    let path = cfg::path_of(cfg::succ_lists(f), f.entry, a, None);
    lemma_antisymmetric(f, a, b, path);
}

/// What dominates a dominator dominates.
pub proof fn dominance_is_transitive(f: FuncView, a: BlockId, b: BlockId, c: BlockId)
    requires
        cfg::dominates(f, a, b),
        cfg::dominates(f, b, c),
    ensures
        cfg::dominates(f, a, c),
{
    assert forall|path: Seq<BlockId>| #[trigger]
        cfg::walk(cfg::succ_lists(f), path, f.entry, c, None) implies path.contains(a) by {
        assert(path.contains(b));
        let j = choose|j: int| 0 <= j < path.len() && path[j] == b;
        lemma_prefix(f, path, c, j);
        let p = path.take(j + 1);
        assert(p.contains(a));
        let i = choose|i: int| 0 <= i < p.len() && p[i] == a;
        assert(path[i] == a);
    }
}

pub proof fn dominance_is_reflexive(f: FuncView, b: BlockId)
    requires
        cfg::reachable(f, b),
    ensures
        cfg::dominates(f, b, b),
{
    assert forall|path: Seq<BlockId>| #[trigger]
        cfg::walk(cfg::succ_lists(f), path, f.entry, b, None) implies path.contains(b) by {
        assert(path[path.len() - 1] == b);
    }
}

/// Nothing else dominates the entry.
pub proof fn lemma_entry_dominator(f: FuncView, a: BlockId)
    requires
        f.wf(),
        cfg::dominates(f, a, f.entry),
    ensures
        a == f.entry,
{
    let path = seq![f.entry];
    assert(cfg::walk(cfg::succ_lists(f), path, f.entry, f.entry, None));
    assert(path.contains(a));
}

/// What strictly dominates a block dominates its predecessors.
pub proof fn lemma_dominates_pred(f: FuncView, d: BlockId, b: BlockId, t: BlockId)
    requires
        f.wf(),
        f.has_block(b),
        cfg::reachable(f, b),
        cfg::edge(f, b, t),
        cfg::dominates(f, d, t),
        d != t,
    ensures
        cfg::dominates(f, d, b),
{
    assert forall|path: Seq<BlockId>| #[trigger]
        cfg::walk(cfg::succ_lists(f), path, f.entry, b, None) implies path.contains(d) by {
        lemma_longer(f, path, b, t);
        let p = path.push(t);
        assert(p.contains(d));
        let j = choose|j: int| 0 <= j < p.len() && p[j] == d;
        assert(path[j] == d);
    }
}

/// The block is one of the predecessors that can be reached, or dominates them.
pub open spec fn ahead_of_preds(f: FuncView, o: BlockId, t: BlockId) -> bool {
    forall|q: BlockId|
        f.has_block(q) && cfg::reachable(f, q) && #[trigger] cfg::edge(f, q, t) ==> o == q
            || cfg::dominates(f, o, q)
}

proof fn lemma_last_arc(f: FuncView, path: Seq<BlockId>, t: BlockId)
    requires
        cfg::walk(cfg::succ_lists(f), path, f.entry, t, None),
        t != f.entry,
    ensures
        path.len() >= 2,
        ({
            let q = path[path.len() - 2];
            &&& f.has_block(q)
            &&& cfg::reachable(f, q)
            &&& cfg::edge(f, q, t)
            &&& cfg::walk(
                cfg::succ_lists(f),
                path.take(path.len() - 1),
                f.entry,
                q,
                None,
            )
        }),
{
    assert(path.len() >= 2);
    let k = path.len() - 2;
    lemma_prefix(f, path, t, k);
    assert(cfg::succ_lists(f)[path[k].0 as int].contains(path[k + 1]));
}

/// What is ahead of all predecessors dominates the block.
pub proof fn lemma_dominated_through_preds(f: FuncView, o: BlockId, t: BlockId)
    requires
        cfg::reachable(f, t),
        t != f.entry,
        ahead_of_preds(f, o, t),
    ensures
        cfg::dominates(f, o, t),
        o != t,
{
    assert forall|path: Seq<BlockId>| #[trigger]
        cfg::walk(cfg::succ_lists(f), path, f.entry, t, None) implies path.contains(o) by {
        lemma_last_arc(f, path, t);
        let q = path[path.len() - 2];
        assert(cfg::edge(f, q, t));
        if o != q {
            let p = path.take(path.len() - 1);
            assert(p.contains(o));
            let j = choose|j: int| 0 <= j < p.len() && p[j] == o;
            assert(path[j] == o);
        }
    }
    if o == t {
        let path = cfg::path_of(cfg::succ_lists(f), f.entry, t, None);
        lemma_not_ahead(f, t, path);
    }
}

proof fn lemma_not_ahead(f: FuncView, t: BlockId, path: Seq<BlockId>)
    requires
        cfg::walk(cfg::succ_lists(f), path, f.entry, t, None),
        ahead_of_preds(f, t, t),
    ensures
        t == f.entry,
    decreases path.len(),
{
    if t != f.entry {
        lemma_last_arc(f, path, t);
        let q = path[path.len() - 2];
        let p = path.take(path.len() - 1);
        assert(cfg::edge(f, q, t));
        assert(p[p.len() - 1] == q);
        assert(p.contains(t));
        let j = choose|j: int| 0 <= j < p.len() && p[j] == t;
        lemma_prefix(f, p, q, j);
        lemma_not_ahead(f, t, p.take(j + 1));
    }
}

// ---------------------------------------------------------------------------
// What is known at a place
// ---------------------------------------------------------------------------

/// The place `(d, j)` has been passed wherever `(b, i)` is reached.
pub open spec fn passed(f: FuncView, d: BlockId, j: int, b: BlockId, i: int) -> bool {
    if d == b {
        j < i
    } else {
        cfg::dominates(f, d, b)
    }
}

/// The data of the operands.
pub open spec fn data_of<D>(kind: KindView, env: Map<ValueId, D>) -> Seq<D> {
    edit::operands(kind).map_values(|v: ValueId| env[v])
}

/// The result holds what the operation computes from its operands.
pub open spec fn settled<D, M>(m: Meaning<D, M>, inst: InstView, env: Map<ValueId, D>) -> bool {
    semantics::is_plain(inst.kind) ==> (inst.result matches Some(v) ==> forall|memory: M|
        env[v] == #[trigger] m.result(inst.kind, data_of(inst.kind, env), memory))
}

/// A phi that takes the same value along every edge: its result and that value.
pub open spec fn single_source(inst: InstView) -> Option<(ValueId, ValueId)> {
    match (inst.result, inst.kind) {
        (Some(p), KindView::Phi { incomings }) => if incomings.len() > 0 && (forall|k: int|
            0 <= k < incomings.len() ==> (#[trigger] incomings[k]).1 == incomings[0].1) {
            Some((p, incomings[0].1))
        } else {
            None
        },
        _ => None,
    }
}

/// The branch of `p` leads to `t` just where `cond` comes out `way`, and nothing
/// else leads there.
pub open spec fn leads(f: FuncView, p: BlockId, t: BlockId, cond: ValueId, way: bool) -> bool {
    &&& f.has_block(p)
    &&& t != p
    &&& f.terminator(p) matches Some(Terminator::Branch { cond: c, then_target, else_target })
        && c == cond && then_target != else_target && t == (if way {
        then_target
    } else {
        else_target
    })
    &&& forall|q: BlockId| f.has_block(q) && #[trigger] cfg::edge(f, q, t) ==> q == p
}

/// What is known of the data at position `i` of block `b`.
#[verifier::opaque]
pub open spec fn knows<D, M>(
    f: FuncView,
    m: Meaning<D, M>,
    b: BlockId,
    i: int,
    env: Map<ValueId, D>,
) -> bool {
    &&& constants_kept(f, m, env)
    &&& forall|d: BlockId, j: int|
        f.has_inst(d, j) && passed(f, d, j, b, i) ==> settled(m, #[trigger] f.inst(d, j), env)
    &&& forall|d: BlockId, j: int|
        f.has_inst(d, j) && cfg::dominates(f, d, b) ==> (single_source(
            #[trigger] f.inst(d, j),
        ) matches Some((p, w)) ==> env[p] == env[w])
    &&& forall|p: BlockId, t: BlockId, cond: ValueId, way: bool| #[trigger]
        leads(f, p, t, cond, way) && cfg::dominates(f, t, b) ==> (m.truth)(env[cond]) == way
}

/// A value is defined in one place only.
proof fn lemma_one_definition(f: FuncView, a: BlockId, i: int, b: BlockId, j: int, v: ValueId)
    requires
        verify::valid(f),
        fits(f),
        f.has_inst(a, i),
        f.has_inst(b, j),
        f.inst(a, i).result == Some(v),
        f.inst(b, j).result == Some(v),
    ensures
        a == b,
        i == j,
{
    assert(f.has_block(a) && f.has_block(b));
    assert(verify::block_valid(f, a));
    assert(verify::block_valid(f, b));
    assert(verify::inst_valid(f, a, i));
    assert(verify::inst_valid(f, b, j));
}

/// An operand is defined elsewhere, at a place that has been passed.
pub proof fn lemma_operand_passed(f: FuncView, d: BlockId, j: int, k: int, b: BlockId, i: int)
    requires
        verify::valid(f),
        fits(f),
        f.has_inst(d, j),
        !(f.inst(d, j).kind is Phi),
        0 <= k < edit::operands(f.inst(d, j).kind).len(),
        f.has_inst(b, i),
        f.inst(b, i).result == Some(edit::operands(f.inst(d, j).kind)[k]),
        cfg::reachable(f, d),
    ensures
        passed(f, b, i, d, j),
{
    let v = edit::operands(f.inst(d, j).kind)[k];
    assert(f.has_block(d) && f.has_block(b));
    assert(verify::block_valid(f, d));
    assert(verify::inst_valid(f, d, j));
    assert(verify::available(f, v, d, j));
    assert(verify::block_valid(f, b));
    assert(verify::inst_valid(f, b, i));
}

/// The value that a single-source phi takes is defined ahead of the phi.
pub proof fn lemma_source_ahead(f: FuncView, d: BlockId, j: int, b: BlockId, i: int, v: ValueId)
    requires
        verify::valid(f),
        fits(f),
        entered_once(f),
        f.has_inst(d, j),
        single_source(f.inst(d, j)) matches Some((_, w)) && w == v,
        f.has_inst(b, i),
        f.inst(b, i).result == Some(v),
        cfg::reachable(f, d),
    ensures
        cfg::dominates(f, b, d),
        b != d,
{
    let incomings = f.inst(d, j).kind->incomings;
    assert(f.has_block(d) && f.has_block(b));
    assert(verify::block_valid(f, d));
    assert(verify::inst_valid(f, d, j));
    assert(verify::block_valid(f, b));
    assert(verify::inst_valid(f, b, i));
    query::lemma_inst_wf(f, d, j);
    assert(cfg::edge(f, incomings[0].0, d));
    assert(f.has_block(incomings[0].0));
    assert(d != f.entry);
    assert(ahead_of_preds(f, b, d)) by {
        assert forall|q: BlockId|
            f.has_block(q) && cfg::reachable(f, q) && #[trigger] cfg::edge(f, q, d) implies b == q
            || cfg::dominates(f, b, q) by {
            threading_laws::lemma_phi_names(f, incomings, d, q);
            let k = choose|k: int| 0 <= k < incomings.len() && (#[trigger] incomings[k]).0 == q;
            assert(verify::available(
                f,
                incomings[k].1,
                incomings[k].0,
                verify::block_end(f, incomings[k].0),
            ));
        }
    }
    lemma_dominated_through_preds(f, b, d);
}

/// The value that a branch is on is defined ahead of where it leads.
pub proof fn lemma_condition_ahead(
    f: FuncView,
    p: BlockId,
    t: BlockId,
    cond: ValueId,
    way: bool,
    b: BlockId,
    i: int,
)
    requires
        verify::valid(f),
        fits(f),
        entered_once(f),
        leads(f, p, t, cond, way),
        f.has_inst(b, i),
        f.inst(b, i).result == Some(cond),
        cfg::reachable(f, t),
    ensures
        cfg::dominates(f, b, t),
        b != t,
        cfg::dominates(f, p, t),
{
    assert(f.has_block(p) && f.has_block(b));
    assert(verify::block_valid(f, p));
    assert(verify::block_valid(f, b));
    assert(verify::inst_valid(f, b, i));
    let reads = edit::terminator_reads(f.terminator(p));
    assert(reads[0] == cond);
    assert(verify::available(f, cond, p, verify::block_end(f, p)));
    threading_laws::lemma_succ(f.terminator(p), t);
    assert(cfg::edge(f, p, t));
    assert(t != f.entry);
    assert(ahead_of_preds(f, p, t));
    lemma_dominated_through_preds(f, p, t);
    assert(ahead_of_preds(f, b, t));
    lemma_dominated_through_preds(f, b, t);
}

/// What is known where a call begins.
pub proof fn lemma_known_at_start<D, M>(f: FuncView, m: Meaning<D, M>, args: Map<ValueId, D>)
    requires
        verify::valid(f),
        fits(f),
        entered_once(f),
    ensures
        knows(f, m, f.entry, 0, semantics::initial(f, m, args)),
        cfg::reachable(f, f.entry),
{
    reveal(knows);
    let env = semantics::initial(f, m, args);
    assert(cfg::walk(cfg::succ_lists(f), seq![f.entry], f.entry, f.entry, None));
    assert forall|d: BlockId, j: int| f.has_inst(d, j) && passed(f, d, j, f.entry, 0) implies settled(
        m,
        #[trigger] f.inst(d, j),
        env,
    ) by {
        if d != f.entry {
            lemma_entry_dominator(f, d);
        }
    }
    assert forall|d: BlockId, j: int| f.has_inst(d, j) && cfg::dominates(f, d, f.entry) implies (
    single_source(#[trigger] f.inst(d, j)) matches Some((p, w)) ==> env[p] == env[w]) by {
        lemma_entry_dominator(f, d);
        if let Some((p, w)) = single_source(f.inst(d, j)) {
            let incomings = f.inst(d, j).kind->incomings;
            assert(verify::block_valid(f, d));
            assert(verify::inst_valid(f, d, j));
            query::lemma_inst_wf(f, d, j);
            assert(cfg::edge(f, incomings[0].0, d));
        }
    }
    assert forall|p: BlockId, t: BlockId, cond: ValueId, way: bool| #[trigger]
        leads(f, p, t, cond, way) && cfg::dominates(f, t, f.entry) implies (m.truth)(env[cond])
        == way by {
        lemma_entry_dominator(f, t);
        threading_laws::lemma_succ(f.terminator(p), t);
        assert(cfg::edge(f, p, t));
    }
}

/// One instruction is run.
pub open spec fn one<D, M>(
    m: Meaning<D, M>,
    inst: InstView,
    env: Map<ValueId, D>,
    memory: M,
) -> (Map<ValueId, D>, M) {
    match inst.kind {
        KindView::Phi { .. } => (env, memory),
        KindView::Nop => (env, memory),
        kind => {
            let (d, next) = (m.apply)(semantics::shape(kind), data_of(kind, env), memory);
            match inst.result {
                Some(v) => (env.insert(v, d), next),
                None => (env, next),
            }
        },
    }
}

proof fn lemma_same_data_but<D>(kind: KindView, env: Map<ValueId, D>, v: ValueId, d: D)
    requires
        forall|k: int|
            0 <= k < edit::operands(kind).len() ==> #[trigger] edit::operands(kind)[k] != v,
    ensures
        data_of(kind, env.insert(v, d)) == data_of(kind, env),
{
    assert(data_of(kind, env.insert(v, d)) =~= data_of(kind, env));
}

/// What is known behind an instruction.
pub proof fn lemma_known_behind<D, M>(
    f: FuncView,
    m: Meaning<D, M>,
    b: BlockId,
    i: int,
    env: Map<ValueId, D>,
    memory: M,
)
    requires
        verify::valid(f),
        fits(f),
        entered_once(f),
        m.computes_apart_from_memory(),
        f.has_inst(b, i),
        cfg::reachable(f, b),
        knows(f, m, b, i, env),
    ensures
        knows(f, m, b, i + 1, one(m, f.inst(b, i), env, memory).0),
{
    reveal(knows);
    let inst = f.inst(b, i);
    let kind = inst.kind;
    let after = one(m, inst, env, memory).0;
    assert(verify::block_valid(f, b));
    assert(verify::inst_valid(f, b, i));
    if kind is Phi || kind is Nop || inst.result is None {
        assert(after == env);
        assert forall|d: BlockId, j: int| f.has_inst(d, j) && passed(
            f,
            d,
            j,
            b,
            i + 1,
        ) implies settled(m, #[trigger] f.inst(d, j), env) by {
            if d == b && j == i {
            } else {
                assert(passed(f, d, j, b, i));
            }
        }
    } else {
        let v = inst.result->Some_0;
        let r = (m.apply)(semantics::shape(kind), data_of(kind, env), memory).0;
        assert(after == env.insert(v, r));
        assert(constants_kept(f, m, after)) by {
            assert(f.value(v).kind is Inst);
        }
        assert forall|d: BlockId, j: int| f.has_inst(d, j) && passed(
            f,
            d,
            j,
            b,
            i + 1,
        ) implies settled(m, #[trigger] f.inst(d, j), after) by {
            let other = f.inst(d, j);
            if semantics::is_plain(other.kind) && other.result is Some {
                let list = edit::operands(other.kind);
                assert forall|k: int| 0 <= k < list.len() implies #[trigger] list[k] != v by {
                    if list[k] == v {
                        assert(cfg::reachable(f, d)) by {
                            if d != b {
                                lemma_dominator_reachable(f, d, b);
                            }
                        }
                        lemma_operand_passed(f, d, j, k, b, i);
                        if d != b {
                            dominance_is_antisymmetric(f, b, d);
                        }
                    }
                }
                lemma_same_data_but(other.kind, env, v, r);
                let w = other.result->Some_0;
                if d == b && j == i {
                    assert forall|mem: M| after[v] == #[trigger] m.result(
                        other.kind,
                        data_of(other.kind, after),
                        mem,
                    ) by {
                        lemma_shape_plain(kind);
                        assert((m.apply)(
                            semantics::shape(kind),
                            data_of(kind, env),
                            memory,
                        ).0 == (m.apply)(semantics::shape(kind), data_of(kind, env), mem).0);
                    }
                } else {
                    assert(passed(f, d, j, b, i));
                    if w == v {
                        lemma_one_definition(f, d, j, b, i, v);
                    }
                    assert(settled(m, other, env));
                }
            }
        }
        assert forall|d: BlockId, j: int| f.has_inst(d, j) && cfg::dominates(f, d, b) implies (
        single_source(#[trigger] f.inst(d, j)) matches Some((p, w)) ==> after[p] == after[w]) by {
            if let Some((p, w)) = single_source(f.inst(d, j)) {
                assert(env[p] == env[w]);
                if p == v {
                    lemma_one_definition(f, d, j, b, i, v);
                }
                if w == v {
                    lemma_dominator_reachable(f, d, b);
                    lemma_source_ahead(f, d, j, b, i, v);
                    dominance_is_antisymmetric(f, b, d);
                }
            }
        }
        assert forall|p: BlockId, t: BlockId, cond: ValueId, way: bool| #[trigger]
            leads(f, p, t, cond, way) && cfg::dominates(f, t, b) implies (m.truth)(after[cond])
            == way by {
            if cond == v {
                lemma_dominator_reachable(f, t, b);
                lemma_condition_ahead(f, p, t, cond, way, b, i);
                dominance_is_antisymmetric(f, b, t);
            }
        }
    }
}

pub proof fn lemma_shape_plain(kind: KindView)
    ensures
        semantics::is_plain(kind) ==> semantics::is_plain(semantics::shape(kind)),
{
}

/// A dominator of a block can be reached.
pub proof fn lemma_dominator_reachable(f: FuncView, d: BlockId, b: BlockId)
    requires
        cfg::dominates(f, d, b),
    ensures
        cfg::reachable(f, d),
        f.has_block(d),
{
    let path = cfg::path_of(cfg::succ_lists(f), f.entry, b, None);
    assert(path.contains(d));
    let j = choose|j: int| 0 <= j < path.len() && path[j] == d;
    lemma_prefix(f, path, b, j);
    assert(path[j].0 < cfg::succ_lists(f).len());
}

/// What is known after all instructions of a block.
pub proof fn lemma_known_at_end<D, M>(
    f: FuncView,
    m: Meaning<D, M>,
    b: BlockId,
    n: int,
    env: Map<ValueId, D>,
    memory: M,
)
    requires
        verify::valid(f),
        fits(f),
        entered_once(f),
        m.computes_apart_from_memory(),
        f.has_block(b),
        0 <= n <= f.block(b).insts.len(),
        cfg::reachable(f, b),
        knows(f, m, b, 0, env),
    ensures
        knows(f, m, b, n, semantics::executed(m, f.block(b).insts, n, env, memory).0),
    decreases n,
{
    if n > 0 {
        lemma_known_at_end(f, m, b, n - 1, env, memory);
        let (before, mem) = semantics::executed(m, f.block(b).insts, n - 1, env, memory);
        assert(f.has_inst(b, n - 1));
        lemma_known_behind(f, m, b, n - 1, before, mem);
    }
}

/// The value that the instruction assigns to when control comes from `pred`, and
/// the value that it takes.
pub open spec fn assigned(inst: InstView, pred: BlockId) -> Option<(ValueId, ValueId)> {
    match (inst.result, inst.kind) {
        (Some(p), KindView::Phi { incomings }) => match util::incoming_from(incomings, pred) {
            Some(w) => Some((p, w)),
            None => None,
        },
        _ => None,
    }
}

/// What the phis leave alone stays.
pub proof fn lemma_not_assigned<D>(
    insts: Seq<InstView>,
    n: int,
    pred: BlockId,
    env: Map<ValueId, D>,
    v: ValueId,
)
    requires
        n <= insts.len(),
        forall|k: int|
            0 <= k < insts.len() ==> !((#[trigger] insts[k]).kind is Phi && insts[k].result == Some(
                v,
            )),
    ensures
        semantics::phis_assigned(insts, n, pred, env)[v] == env[v],
    decreases n,
{
    if n > 0 {
        lemma_not_assigned(insts, n - 1, pred, env, v);
        assert(!(insts[n - 1].kind is Phi && insts[n - 1].result == Some(v)));
    }
}

/// A phi takes its value.
pub proof fn lemma_phi_takes<D>(
    insts: Seq<InstView>,
    n: int,
    j: int,
    pred: BlockId,
    env: Map<ValueId, D>,
    v: ValueId,
    w: ValueId,
)
    requires
        0 <= j < n <= insts.len(),
        assigned(insts[j], pred) == Some((v, w)),
        forall|k: int| 0 <= k < insts.len() && k != j ==> (#[trigger] insts[k]).result != Some(v),
    ensures
        semantics::phis_assigned(insts, n, pred, env)[v] == env[w],
    decreases n,
{
    if j < n - 1 {
        lemma_phi_takes(insts, n - 1, j, pred, env, v, w);
        assert(insts[n - 1].result != Some(v));
    }
}

/// What is known where control arrives.
#[verifier::rlimit(40)]
pub proof fn lemma_known_on_arrival<D, M>(
    f: FuncView,
    m: Meaning<D, M>,
    b: BlockId,
    to: BlockId,
    env: Map<ValueId, D>,
)
    requires
        verify::valid(f),
        fits(f),
        entered_once(f),
        f.has_block(b),
        cfg::reachable(f, b),
        knows(f, m, b, f.block(b).insts.len() as int, env),
        next_block(m, f.terminator(b), env) == Some(to),
    ensures
        f.has_block(to),
        cfg::reachable(f, to),
        knows(
            f,
            m,
            to,
            0,
            semantics::phis_assigned(f.block(to).insts, f.block(to).insts.len() as int, b, env),
        ),
{
    reveal(knows);
    threading_laws::lemma_succ(f.terminator(b), to);
    assert(cfg::edge(f, b, to));
    lemma_reachable_next(f, b, to);
    let insts = f.block(to).insts;
    let n = insts.len() as int;
    let len = f.block(b).insts.len() as int;
    let after = semantics::phis_assigned(insts, n, b, env);
    meaning_laws::lemma_results_are_computed(f);
    meaning_laws::lemma_assignment_keeps_constants(f, m, to, n, b, env);
    dominance_is_reflexive(f, to);
    assert forall|v: ValueId| (forall|k: int|
        0 <= k < insts.len() ==> (#[trigger] insts[k]).result != Some(v)) implies #[trigger] after[v]
        == env[v] by {
        lemma_not_assigned(insts, n, b, env, v);
    }
    assert forall|d: BlockId, j: int| f.has_inst(d, j) && passed(f, d, j, to, 0) implies settled(
        m,
        #[trigger] f.inst(d, j),
        after,
    ) by {
        let other = f.inst(d, j);
        if semantics::is_plain(other.kind) && other.result is Some {
            lemma_dominates_pred(f, d, b, to);
            lemma_dominator_reachable(f, d, to);
            assert(passed(f, d, j, b, len));
            assert(settled(m, other, env));
            let list = edit::operands(other.kind);
            let w = other.result->Some_0;
            assert(data_of(other.kind, after) =~= data_of(other.kind, env)) by {
                assert forall|k: int| 0 <= k < list.len() implies after[#[trigger] list[k]]
                    == env[list[k]] by {
                    if exists|x: int|
                        0 <= x < insts.len() && (#[trigger] insts[x]).result == Some(list[k]) {
                        let x = choose|x: int|
                            0 <= x < insts.len() && (#[trigger] insts[x]).result == Some(list[k]);
                        assert(f.has_inst(to, x));
                        assert(f.inst(to, x).result == Some(list[k]));
                        lemma_operand_passed(f, d, j, k, to, x);
                        dominance_is_antisymmetric(f, to, d);
                    }
                }
            }
            if exists|x: int| 0 <= x < insts.len() && (#[trigger] insts[x]).result == Some(w) {
                let x = choose|x: int|
                    0 <= x < insts.len() && (#[trigger] insts[x]).result == Some(w);
                assert(f.has_inst(to, x));
                lemma_one_definition(f, d, j, to, x, w);
            }
        }
    }
    assert forall|d: BlockId, j: int| f.has_inst(d, j) && cfg::dominates(f, d, to) implies (
    single_source(#[trigger] f.inst(d, j)) matches Some((p, w)) ==> after[p] == after[w]) by {
        if let Some((p, w)) = single_source(f.inst(d, j)) {
            lemma_dominator_reachable(f, d, to);
            assert(after[w] == env[w]) by {
                if exists|x: int| 0 <= x < insts.len() && (#[trigger] insts[x]).result == Some(w) {
                    let x = choose|x: int|
                        0 <= x < insts.len() && (#[trigger] insts[x]).result == Some(w);
                    assert(f.has_inst(to, x));
                    assert(f.inst(to, x).result == Some(w));
                    lemma_source_ahead(f, d, j, to, x, w);
                    dominance_is_antisymmetric(f, to, d);
                }
            }
            if d == to {
                let incomings = f.inst(d, j).kind->incomings;
                assert(verify::block_valid(f, d));
                assert(verify::inst_valid(f, d, j));
                query::lemma_inst_wf(f, d, j);
                threading_laws::lemma_phi_names(f, incomings, d, b);
                let k = choose|k: int|
                    0 <= k < incomings.len() && (#[trigger] incomings[k]).0 == b;
                threading_laws::lemma_incoming_found(incomings, b, k);
                threading_laws::lemma_incoming_entry(incomings, b);
                let taken = util::incoming_from(incomings, b)->Some_0;
                let e = choose|e: int|
                    0 <= e < incomings.len() && #[trigger] incomings[e] == (b, taken);
                assert(incomings[e].1 == incomings[0].1);
                assert(assigned(insts[j], b) == Some((p, w)));
                assert forall|x: int| 0 <= x < insts.len() && x != j implies (
                #[trigger] insts[x]).result != Some(p) by {
                    if insts[x].result == Some(p) {
                        assert(f.has_inst(to, x));
                        assert(f.inst(to, x).result == Some(p));
                        lemma_one_definition(f, d, j, to, x, p);
                    }
                }
                lemma_phi_takes(insts, n, j, b, env, p, w);
            } else {
                lemma_dominates_pred(f, d, b, to);
                assert(env[p] == env[w]);
                if exists|x: int| 0 <= x < insts.len() && (#[trigger] insts[x]).result == Some(p) {
                    let x = choose|x: int|
                        0 <= x < insts.len() && (#[trigger] insts[x]).result == Some(p);
                    assert(f.has_inst(to, x));
                    assert(f.inst(to, x).result == Some(p));
                    lemma_one_definition(f, d, j, to, x, p);
                }
            }
        }
    }
    assert forall|p: BlockId, t: BlockId, cond: ValueId, way: bool| #[trigger]
        leads(f, p, t, cond, way) && cfg::dominates(f, t, to) implies (m.truth)(after[cond])
        == way by {
        lemma_dominator_reachable(f, t, to);
        assert(after[cond] == env[cond]) by {
            if exists|x: int| 0 <= x < insts.len() && (#[trigger] insts[x]).result == Some(cond) {
                let x = choose|x: int|
                    0 <= x < insts.len() && (#[trigger] insts[x]).result == Some(cond);
                assert(f.has_inst(to, x));
                assert(f.inst(to, x).result == Some(cond));
                lemma_condition_ahead(f, p, t, cond, way, to, x);
                dominance_is_antisymmetric(f, to, t);
            }
        }
        if t == to {
            assert(b == p);
        } else {
            lemma_dominates_pred(f, t, b, to);
        }
    }
}

// ---------------------------------------------------------------------------
// Reading what is known
// ---------------------------------------------------------------------------

/// The value is there at position `i` of block `b`.
pub open spec fn is_known(f: FuncView, v: ValueId, b: BlockId, i: int) -> bool {
    &&& f.has_value(v)
    &&& verify::defined(f, v)
    &&& f.value(v).kind matches ValueKindView::Inst(owner, at) ==> passed(
        f,
        owner,
        at as int,
        b,
        i,
    )
}

/// What may be read is there.
pub proof fn lemma_available_is_known(f: FuncView, v: ValueId, b: BlockId, i: int)
    requires
        f.has_value(v),
        cfg::reachable(f, b),
        verify::available(f, v, b, i),
    ensures
        is_known(f, v, b, i),
{
}

/// The operands of a plain operation that has been passed are there, and its
/// result holds what it computes from them.
pub proof fn lemma_computed<D, M>(
    f: FuncView,
    m: Meaning<D, M>,
    b: BlockId,
    i: int,
    env: Map<ValueId, D>,
    v: ValueId,
    kind: KindView,
    memory: M,
)
    requires
        verify::valid(f),
        fits(f),
        cfg::reachable(f, b),
        knows(f, m, b, i, env),
        is_known(f, v, b, i),
        util::def_kind(f, v) == Some(kind),
        semantics::is_plain(kind),
    ensures
        env[v] == m.result(kind, data_of(kind, env), memory),
        forall|k: int|
            0 <= k < edit::operands(kind).len() ==> is_known(
                f,
                #[trigger] edit::operands(kind)[k],
                b,
                i,
            ),
{
    reveal(knows);
    if let ValueKindView::Inst(d, at) = f.value(v).kind {
        let j = at as int;
        let inst = f.inst(d, j);
        assert(settled(m, inst, env));
        assert(f.has_block(d));
        assert(verify::block_valid(f, d));
        assert(verify::inst_valid(f, d, j));
        query::lemma_inst_wf(f, d, j);
        let list = edit::operands(kind);
        if d != b {
            lemma_dominator_reachable(f, d, b);
        }
        assert forall|k: int| 0 <= k < list.len() implies is_known(f, #[trigger] list[k], b, i) by {
            assert(verify::available(f, list[k], d, j));
            if list[k].0 >= f.values.len() {
                verify::lemma_operand_out_of_range(kind, f.blocks.len(), f.values.len(), k);
            }
            if let ValueKindView::Inst(o, place) = f.value(list[k]).kind {
                if o != d && d != b {
                    dominance_is_transitive(f, o, d, b);
                    if o == b {
                        dominance_is_antisymmetric(f, b, d);
                    }
                }
            }
        }
    }
}

/// What a branch is on is there wherever its outcome is known.
pub proof fn lemma_condition_known(
    f: FuncView,
    p: BlockId,
    t: BlockId,
    cond: ValueId,
    way: bool,
    b: BlockId,
    i: int,
)
    requires
        verify::valid(f),
        fits(f),
        entered_once(f),
        leads(f, p, t, cond, way),
        cfg::dominates(f, t, b),
        f.has_value(cond),
    ensures
        is_known(f, cond, b, i),
{
    lemma_dominator_reachable(f, t, b);
    assert(verify::block_valid(f, p));
    let reads = edit::terminator_reads(f.terminator(p));
    assert(reads[0] == cond);
    assert(verify::available(f, cond, p, verify::block_end(f, p)));
    if let ValueKindView::Inst(o, at) = f.value(cond).kind {
        lemma_condition_ahead(f, p, t, cond, way, o, at as int);
        dominance_is_transitive(f, o, t, b);
        if o == b {
            dominance_is_antisymmetric(f, b, t);
        }
    }
}

} // verus!
