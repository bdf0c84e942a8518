//! Choosing a value without a branch keeps what a function computes.
use vstd::prelude::*;

use crate::cfg;
use crate::edit;
use crate::ir::{
    BlockId, FuncView, InstView, KindView, Terminator, Type, ValueId, ValueKindView,
};
use crate::pass::simplify_cfg::if_convert;
use crate::pass::simplify_cfg::meaning_laws;
use crate::pass::simplify_cfg::tail_laws;
use crate::pass::simplify_cfg::tail_merge;
use crate::pass::simplify_cfg::threading_laws;
use crate::query;
use crate::semantics;
use crate::semantics::{Meaning, State};
use crate::util;
use crate::verify;

verus! {

// ---------------------------------------------------------------------------
// Replacing operands
// ---------------------------------------------------------------------------

/// The operands of an operation with every operand replaced.
pub proof fn lemma_operands_mapped(kind: KindView, g: spec_fn(ValueId) -> ValueId)
    ensures
        edit::operands(util::map_kind(kind, g)) == edit::operands(kind).map_values(g),
        semantics::shape(util::map_kind(kind, g)) == semantics::shape(kind),
{
    let left = edit::operands(util::map_kind(kind, g));
    let right = edit::operands(kind).map_values(g);
    let zero = |v: ValueId| ValueId(0);
    match kind {
        KindView::Phi { incomings } => {
            assert(util::map_incomings(util::map_incomings(incomings, g), zero)
                =~= util::map_incomings(incomings, zero));
        },
        KindView::Gep { base, indices } => {
            assert(indices.map_values(g).map_values(zero) =~= indices.map_values(zero));
        },
        KindView::Call { name, args } => {
            assert(args.map_values(g).map_values(zero) =~= args.map_values(zero));
        },
        _ => {},
    }
    assert(left =~= right);
}

/// What a phi with every operand replaced takes.
pub proof fn lemma_incoming_mapped(
    incomings: Seq<(BlockId, ValueId)>,
    g: spec_fn(ValueId) -> ValueId,
    pred: BlockId,
)
    ensures
        util::incoming_from(util::map_incomings(incomings, g), pred) == match util::incoming_from(
            incomings,
            pred,
        ) {
            Some(v) => Some(g(v)),
            None => None,
        },
    decreases incomings.len(),
{
    if incomings.len() > 0 {
        let rest = incomings.drop_first();
        lemma_incoming_mapped(rest, g, pred);
        assert(util::map_incomings(incomings, g).drop_first() =~= util::map_incomings(rest, g));
    }
}

// ---------------------------------------------------------------------------
// A choice between two values
// ---------------------------------------------------------------------------

/// A branch of block `head` that decides whether control passes through `side`,
/// which computes `update`; the phi of `merge` takes the update, or else the
/// value `other`. Without the update, control comes from `idle`: an empty block
/// or `head` itself.
pub struct Choice {
    pub head: BlockId,
    pub cond: ValueId,
    pub update_when_true: bool,
    pub side: BlockId,
    pub at: int,
    pub update: ValueId,
    pub idle: BlockId,
    pub other: ValueId,
    pub merge: BlockId,
    pub phi_at: int,
    pub phi: ValueId,
}

/// Only the end of `head` leads to `b`.
pub open spec fn led_by(f: FuncView, b: BlockId, head: BlockId) -> bool {
    forall|q: BlockId| f.has_block(q) && #[trigger] cfg::edge(f, q, b) ==> q == head
}

/// Nothing leads to the entry block.
pub open spec fn entered_once(f: FuncView) -> bool {
    forall|q: BlockId| f.has_block(q) ==> !#[trigger] cfg::edge(f, q, f.entry)
}

/// The choice as it stands in the function.
#[verifier::opaque]
pub open spec fn stands(f: FuncView, c: Choice) -> bool {
    let arm = if c.idle == c.head {
        c.merge
    } else {
        c.idle
    };
    &&& f.has_block(c.head)
    &&& f.has_block(c.side)
    &&& f.has_block(c.idle)
    &&& f.has_block(c.merge)
    &&& c.side != c.head
    &&& c.side != c.merge
    &&& c.side != c.idle
    &&& c.idle != c.merge || c.idle == c.head
    &&& f.terminator(c.head) == Some(
        if c.update_when_true {
            Terminator::Branch { cond: c.cond, then_target: c.side, else_target: arm }
        } else {
            Terminator::Branch { cond: c.cond, then_target: arm, else_target: c.side }
        },
    )
    &&& led_by(f, c.side, c.head)
    &&& query::jump_of(f, c.side) == Some(c.merge)
    &&& f.has_inst(c.side, c.at)
    &&& f.inst(c.side, c.at).result == Some(c.update)
    &&& semantics::is_plain(f.inst(c.side, c.at).kind)
    &&& forall|i: int|
        0 <= i < f.block(c.side).insts.len() && i != c.at ==> (#[trigger] f.block(
            c.side,
        ).insts[i]).kind is Nop
    &&& c.idle != c.head ==> led_by(f, c.idle, c.head) && query::all_nops(f.block(c.idle).insts)
        && query::jump_of(f, c.idle) == Some(c.merge)
    &&& f.has_inst(c.merge, c.phi_at)
    &&& f.inst(c.merge, c.phi_at).kind is Phi
    &&& f.inst(c.merge, c.phi_at).result == Some(c.phi)
    &&& forall|i: int|
        0 <= i < f.block(c.merge).insts.len() && i != c.phi_at ==> !((#[trigger] f.block(
            c.merge,
        ).insts[i]).kind is Phi)
    &&& util::incoming_from(tail_merge::entries(f.inst(c.merge, c.phi_at)), c.side) == Some(
        c.update,
    )
    &&& util::incoming_from(tail_merge::entries(f.inst(c.merge, c.phi_at)), c.idle) == Some(
        c.other,
    )
    &&& query::uses(f, c.update) == 1
    &&& forall|q: BlockId|
        f.has_block(q) && #[trigger] cfg::edge(f, q, c.merge) ==> q == c.side || q == c.idle
}

/// The result of the new operation number `j`.
pub open spec fn fresh(f: FuncView, j: int) -> ValueId {
    ValueId((f.values.len() + j) as usize)
}

/// The new operations, which stand at the end of the head.
pub open spec fn extra(f: FuncView, kinds: Seq<KindView>) -> Seq<InstView> {
    Seq::new(kinds.len(), |j: int| InstView { result: Some(fresh(f, j)), kind: kinds[j] })
}

/// The value that takes the place of the phi.
pub open spec fn chosen(f: FuncView, kinds: Seq<KindView>) -> ValueId {
    fresh(f, kinds.len() - 1)
}

/// The phi is replaced by the chosen value.
pub open spec fn renaming(f: FuncView, c: Choice, kinds: Seq<KindView>) -> spec_fn(
    ValueId,
) -> ValueId {
    |v: ValueId|
        if v == c.phi {
            chosen(f, kinds)
        } else {
            v
        }
}

/// The instruction at a place of the converted function.
pub open spec fn converted_inst(
    f: FuncView,
    c: Choice,
    kinds: Seq<KindView>,
    b: BlockId,
    i: int,
) -> InstView {
    if (b == c.side && i == c.at) || (b == c.merge && i == c.phi_at) {
        edit::nop()
    } else if b == c.head && i >= f.block(b).insts.len() {
        let inst = extra(f, kinds)[i - f.block(b).insts.len()];
        util::map_inst(inst, renaming(f, c, kinds))
    } else {
        util::map_inst(f.block(b).insts[i], renaming(f, c, kinds))
    }
}

/// The converted function, block by block.
#[verifier::opaque]
pub open spec fn described(f: FuncView, g: FuncView, c: Choice, kinds: Seq<KindView>) -> bool {
    &&& g.entry == f.entry
    &&& g.values.len() == f.values.len() + kinds.len()
    &&& forall|v: int| 0 <= v < f.values.len() ==> (#[trigger] g.values[v]) == f.values[v]
    &&& g.blocks.len() == f.blocks.len()
    &&& forall|b: BlockId| #[trigger]
        f.has_block(b) ==> g.terminator(b) == (if b == c.head {
            Some(Terminator::Jump(c.merge))
        } else {
            util::map_terminator(f.terminator(b), renaming(f, c, kinds))
        }) && g.block(b).insts.len() == f.block(b).insts.len() + (if b == c.head {
            kinds.len()
        } else {
            0
        })
    &&& forall|b: BlockId, i: int|
        f.has_block(b) && 0 <= i < g.block(b).insts.len() ==> (#[trigger] g.block(b).insts[i])
            == converted_inst(f, c, kinds, b, i)
}

/// The values in which the two runs differ.
pub open spec fn unread(f: FuncView, c: Choice, kinds: Seq<KindView>) -> Set<ValueId> {
    Set::new(
        |v: ValueId| v == c.phi || v == c.update || f.values.len() <= v.0 < f.values.len()
            + kinds.len(),
    )
}

/// The datum of the phi, by the data at the end of the head.
pub open spec fn choice<D, M>(
    f: FuncView,
    m: Meaning<D, M>,
    c: Choice,
    env: Map<ValueId, D>,
    memory: M,
) -> D {
    let kind = f.inst(c.side, c.at).kind;
    if (m.truth)(env[c.cond]) == c.update_when_true {
        (m.apply)(
            semantics::shape(kind),
            edit::operands(kind).map_values(|v: ValueId| env[v]),
            memory,
        ).0
    } else {
        env[c.other]
    }
}

/// The new operations compute the choice, and nothing else.
#[verifier::opaque]
pub open spec fn compute_the_choice<D, M>(
    f: FuncView,
    m: Meaning<D, M>,
    c: Choice,
    kinds: Seq<KindView>,
) -> bool {
    forall|env: Map<ValueId, D>, memory: M|
        meaning_laws::constants_kept(f, m, env) ==> {
            let (data, mem) = #[trigger] semantics::executed(
                m,
                extra(f, kinds),
                kinds.len() as int,
                env,
                memory,
            );
            &&& mem == memory
            &&& data[chosen(f, kinds)] == choice(f, m, c, env, memory)
            &&& forall|v: ValueId|
                !(f.values.len() <= v.0 < f.values.len() + kinds.len()) ==> #[trigger] data[v]
                    == env[v]
        }
}

/// The new operations do not read the phi.
pub open spec fn skip_the_phi(c: Choice, kinds: Seq<KindView>) -> bool {
    forall|j: int| 0 <= j < kinds.len() ==> semantics::ignores(#[trigger] kinds[j], set![c.phi])
}

/// What the choice depends on is the same in both runs.
pub open spec fn inputs_kept(f: FuncView, c: Choice, kinds: Seq<KindView>) -> bool {
    &&& !unread(f, c, kinds).contains(c.cond)
    &&& !unread(f, c, kinds).contains(c.other)
    &&& semantics::ignores(f.inst(c.side, c.at).kind, unread(f, c, kinds))
}

/// What is needed of a conversion.
#[verifier::opaque]
pub open spec fn converts<D, M>(
    f: FuncView,
    g: FuncView,
    m: Meaning<D, M>,
    c: Choice,
    kinds: Seq<KindView>,
) -> bool {
    &&& verify::valid(f)
    &&& f.values.len() + kinds.len() <= usize::MAX
    &&& kinds.len() > 0
    &&& entered_once(f)
    &&& m.computes_apart_from_memory()
    &&& stands(f, c)
    &&& described(f, g, c, kinds)
    &&& compute_the_choice(f, m, c, kinds)
    &&& skip_the_phi(c, kinds)
    &&& inputs_kept(f, c, kinds)
    &&& forall|j: int| 0 <= j < kinds.len() ==> semantics::is_plain(#[trigger] kinds[j])
}

// ---------------------------------------------------------------------------
// Running along
// ---------------------------------------------------------------------------

/// The data of the two runs correspond.
pub open spec fn in_step<D>(
    f: FuncView,
    c: Choice,
    kinds: Seq<KindView>,
    env: Map<ValueId, D>,
    data: Map<ValueId, D>,
) -> bool {
    semantics::alike(env, data, unread(f, c, kinds)) && env[c.phi] == data[chosen(f, kinds)]
}

/// An operand has the same datum in both runs.
proof fn lemma_operand_in_step<D>(
    f: FuncView,
    c: Choice,
    kinds: Seq<KindView>,
    env: Map<ValueId, D>,
    data: Map<ValueId, D>,
    v: ValueId,
)
    requires
        in_step(f, c, kinds, env, data),
        v != c.update,
        v.0 < f.values.len(),
    ensures
        env[v] == data[renaming(f, c, kinds)(v)],
{
    if v != c.phi {
        assert(!unread(f, c, kinds).contains(v));
    }
}

/// Nothing but the phi reads the update.
pub proof fn lemma_update_read(f: FuncView, c: Choice, b: BlockId, i: int)
    requires
        f.wf(),
        stands(f, c),
        f.has_block(b),
        0 <= i < f.block(b).insts.len(),
        !(b == c.merge && i == c.phi_at),
    ensures
        forall|k: int|
            0 <= k < edit::operands(f.block(b).insts[i].kind).len() ==> (
            #[trigger] edit::operands(f.block(b).insts[i].kind)[k]) != c.update
                && edit::operands(f.block(b).insts[i].kind)[k].0 < f.values.len(),
{
    reveal(stands);
    tail_laws::lemma_read_along(f, c.update, c.merge, c.phi_at, c.side);
    query::lemma_inst_wf(f, b, i);
    let kind = f.block(b).insts[i].kind;
    tail_laws::lemma_operands_in(kind, f.blocks.len(), f.values.len());
    assert(semantics::ignores(kind, set![c.update]));
    let list = edit::operands(kind);
    assert forall|k: int| 0 <= k < list.len() implies (#[trigger] list[k]) != c.update by {
        assert(!set![c.update].contains(list[k]));
    }
}

/// The phi and the update are each defined once.
proof fn lemma_defined_once(f: FuncView, c: Choice, b: BlockId, i: int)
    requires
        verify::valid(f),
        threading_laws::fits(f),
        stands(f, c),
        f.has_block(b),
        0 <= i < f.block(b).insts.len(),
        f.block(b).insts[i].result == Some(c.phi),
    ensures
        b == c.merge && i == c.phi_at,
{
    reveal(stands);
    assert(f.has_block(b));
    assert(f.has_block(c.merge));
    assert(verify::block_valid(f, b));
    assert(verify::inst_valid(f, b, i));
    assert(verify::block_valid(f, c.merge));
    assert(verify::inst_valid(f, c.merge, c.phi_at));
}

proof fn lemma_executed_in_step<D, M>(
    f: FuncView,
    g: FuncView,
    m: Meaning<D, M>,
    c: Choice,
    kinds: Seq<KindView>,
    b: BlockId,
    n: int,
    env: Map<ValueId, D>,
    data: Map<ValueId, D>,
    memory: M,
)
    requires
        converts(f, g, m, c, kinds),
        threading_laws::fits(f),
        f.has_block(b),
        b != c.side,
        n <= f.block(b).insts.len(),
        in_step(f, c, kinds, env, data),
    ensures
        in_step(
            f,
            c,
            kinds,
            semantics::executed(m, f.block(b).insts, n, env, memory).0,
            semantics::executed(m, g.block(b).insts, n, data, memory).0,
        ),
        semantics::executed(m, f.block(b).insts, n, env, memory).1 == semantics::executed(
            m,
            g.block(b).insts,
            n,
            data,
            memory,
        ).1,
    decreases n,
{
    if n > 0 {
        lemma_executed_in_step(f, g, m, c, kinds, b, n - 1, env, data, memory);
        reveal(converts);
        let i = n - 1;
        let x = f.block(b).insts;
        let y = g.block(b).insts;
        let ren = renaming(f, c, kinds);
        let (e, mem) = semantics::executed(m, x, i, env, memory);
        let (d, _) = semantics::executed(m, y, i, data, memory);
        assert(i < y.len() && y[i] == converted_inst(f, c, kinds, b, i)) by {
            reveal(described);
            assert(f.has_block(b));
            assert(g.block(b).insts[i] == converted_inst(f, c, kinds, b, i));
        }
        let kind = x[i].kind;
        if b == c.merge && i == c.phi_at {
            assert(kind is Phi) by {
                reveal(stands);
                assert(f.inst(b, i) == x[i]);
            }
        } else if !(kind is Phi) && !(kind is Nop) {
            lemma_operands_mapped(kind, ren);
            lemma_update_read(f, c, b, i);
            let list = edit::operands(kind);
            assert forall|k: int| 0 <= k < list.len() implies e[#[trigger] list[k]] == d[ren(
                list[k],
            )] by {
                lemma_operand_in_step(f, c, kinds, e, d, list[k]);
            }
            assert(list.map_values(|v: ValueId| e[v]) =~= list.map_values(ren).map_values(
                |v: ValueId| d[v],
            ));
            query::lemma_inst_wf(f, b, i);
            if let Some(v) = x[i].result {
                if v == c.phi {
                    lemma_defined_once(f, c, b, i);
                }
                assert(v.0 < f.values.len());
                assert(chosen(f, kinds).0 >= f.values.len());
            }
        }
    }
}

/// A value that no phi of the list defines is not assigned.
proof fn lemma_not_assigned<D>(
    insts: Seq<InstView>,
    n: int,
    pred: BlockId,
    env: Map<ValueId, D>,
    v: ValueId,
)
    requires
        n <= insts.len(),
        forall|i: int|
            0 <= i < insts.len() && (#[trigger] insts[i]).kind is Phi ==> insts[i].result != Some(
                v,
            ),
    ensures
        semantics::phis_assigned(insts, n, pred, env)[v] == env[v],
    decreases n,
{
    if n > 0 {
        lemma_not_assigned(insts, n - 1, pred, env, v);
        assert(insts[n - 1].kind is Phi ==> insts[n - 1].result != Some(v));
    }
}

/// Both runs arrive at a block other than the merge.
proof fn lemma_arrival_in_step<D, M>(
    f: FuncView,
    g: FuncView,
    m: Meaning<D, M>,
    c: Choice,
    kinds: Seq<KindView>,
    pred: BlockId,
    b: BlockId,
    env: Map<ValueId, D>,
    data: Map<ValueId, D>,
)
    requires
        converts(f, g, m, c, kinds),
        threading_laws::fits(f),
        f.has_block(b),
        b != c.merge,
        b != c.side,
        in_step(f, c, kinds, env, data),
    ensures
        in_step(
            f,
            c,
            kinds,
            semantics::phis_assigned(f.block(b).insts, f.block(b).insts.len() as int, pred, env),
            semantics::phis_assigned(g.block(b).insts, g.block(b).insts.len() as int, pred, data),
        ),
{
    reveal(converts);
    let x = f.block(b).insts;
    let all = g.block(b).insts;
    let n = x.len() as int;
    let y = all.take(n);
    let ren = renaming(f, c, kinds);
    let gone = unread(f, c, kinds);
    assert(all.len() >= n && forall|i: int|
        0 <= i < all.len() ==> (#[trigger] all[i]) == converted_inst(f, c, kinds, b, i)) by {
        reveal(described);
        assert(f.has_block(b));
        assert forall|i: int| 0 <= i < all.len() implies (#[trigger] all[i]) == converted_inst(
            f,
            c,
            kinds,
            b,
            i,
        ) by {
            assert(g.block(b).insts[i] == converted_inst(f, c, kinds, b, i));
        }
    }
    assert forall|i: int| 0 <= i < n implies semantics::takes_alike(
        #[trigger] x[i],
        y[i],
        pred,
        pred,
        env,
        data,
    ) by {
        assert(all[i] == util::map_inst(x[i], ren));
        if let KindView::Phi { incomings } = x[i].kind {
            lemma_incoming_mapped(incomings, ren, pred);
            semantics::lemma_incoming_is_operand(incomings, pred);
            if let Some(v) = util::incoming_from(incomings, pred) {
                let list = edit::operands(x[i].kind);
                let k = choose|k: int| 0 <= k < list.len() && list[k] == v;
                lemma_update_read(f, c, b, i);
                assert(list[k] != c.update);
                lemma_operand_in_step(f, c, kinds, env, data, v);
            }
        }
    }
    semantics::lemma_assigned_pairwise(x, y, n, pred, pred, env, data, gone);
    assert forall|i: int| n <= i < all.len() implies !((#[trigger] all[i]).kind is Phi)
        || all[i].result is None by {
        reveal(described);
        assert(all[i] == converted_inst(f, c, kinds, b, i));
        let j = i - n;
        assert(f.has_block(b));
        assert(semantics::is_plain(kinds[j]));
    }
    semantics::lemma_assigned_by_prefix(all, n, all.len() as int, pred, data);
    semantics::lemma_assigned_in_prefix(all, y, n, pred, data);
    assert forall|i: int| 0 <= i < x.len() && (#[trigger] x[i]).kind is Phi implies x[i].result
        != Some(c.phi) by {
        if x[i].result == Some(c.phi) {
            lemma_defined_once(f, c, b, i);
        }
    }
    lemma_not_assigned(x, n, pred, env, c.phi);
    assert forall|i: int| 0 <= i < y.len() && (#[trigger] y[i]).kind is Phi implies y[i].result
        != Some(chosen(f, kinds)) by {
        assert(all[i] == util::map_inst(x[i], ren));
        query::lemma_inst_wf(f, b, i);
    }
    lemma_not_assigned(y, n, pred, data, chosen(f, kinds));
}

/// The one phi of a list is assigned.
proof fn lemma_one_phi<D>(insts: Seq<InstView>, at: int, n: int, pred: BlockId, env: Map<ValueId, D>)
    requires
        n <= insts.len(),
        0 <= at < insts.len(),
        insts[at].kind is Phi,
        insts[at].result is Some,
        forall|i: int| 0 <= i < insts.len() && i != at ==> !((#[trigger] insts[i]).kind is Phi),
        util::incoming_from(tail_merge::entries(insts[at]), pred) is Some,
    ensures
        semantics::phis_assigned(insts, n, pred, env) == if at < n {
            env.insert(
                insts[at].result->0,
                env[util::incoming_from(tail_merge::entries(insts[at]), pred)->0],
            )
        } else {
            env
        },
    decreases n,
{
    if n > 0 {
        lemma_one_phi(insts, at, n - 1, pred, env);
        if n - 1 != at {
            assert(!(insts[n - 1].kind is Phi));
        }
    }
}

/// The data with the phi, and perhaps the update, set.
proof fn lemma_choice_made<D, M>(
    f: FuncView,
    g: FuncView,
    m: Meaning<D, M>,
    c: Choice,
    kinds: Seq<KindView>,
    env: Map<ValueId, D>,
    memory: M,
) -> (out: (nat, Map<ValueId, D>))
    requires
        converts(f, g, m, c, kinds),
        meaning_laws::constants_kept(f, m, env),
    ensures
        ({
            let s = semantics::left(f, m, c.head, env, memory);
            let (k, after) = out;
            let val = choice(f, m, c, env, memory);
            &&& k == 0 || k == 1
            &&& semantics::steps(f, m, s, k) == (State::Running {
                block: c.merge,
                env: after,
                memory,
            })
            &&& after[c.phi] == val
            &&& forall|v: ValueId| v != c.phi && v != c.update ==> #[trigger] after[v] == env[v]
            &&& meaning_laws::constants_kept(f, m, after)
        }),
{
    reveal(converts);
    meaning_laws::lemma_results_are_computed(f);
    let s = semantics::left(f, m, c.head, env, memory);
    semantics::lemma_few_steps(f, m, s);
    let list = f.block(c.merge).insts;
    let n = list.len() as int;
    let phi = list[c.phi_at];
    assert(f.has_block(c.merge) && f.has_block(c.head) && f.has_block(c.side)) by {
        reveal(stands);
    }
    assert(0 <= c.phi_at < n && phi == f.inst(c.merge, c.phi_at) && phi.kind is Phi && phi.result
        == Some(c.phi) && forall|i: int|
        0 <= i < list.len() && i != c.phi_at ==> !((#[trigger] list[i]).kind is Phi)) by {
        reveal(stands);
    }
    if (m.truth)(env[c.cond]) == c.update_when_true {
        let insts = f.block(c.side).insts;
        let kind = f.inst(c.side, c.at).kind;
        let val = choice(f, m, c, env, memory);
        let mid = env.insert(c.update, val);
        assert(s == semantics::arrived(f, c.head, c.side, env, memory)) by {
            reveal(stands);
        }
        assert(semantics::step(f, m, s) == semantics::arrived::<D, M>(
            f,
            c.side,
            c.merge,
            mid,
            memory,
        )) by {
            reveal(stands);
            assert forall|i: int| 0 <= i < insts.len() implies !((#[trigger] insts[i]).kind is Phi)
                || insts[i].result is None by {
                if i == c.at {
                    assert(insts[i] == f.inst(c.side, c.at));
                }
            }
            semantics::lemma_nothing_assigned(insts, insts.len() as int, c.head, env);
            lemma_one_operation(m, insts, c.at, insts.len() as int, env, memory);
            assert(insts[c.at] == f.inst(c.side, c.at));
        }
        assert(util::incoming_from(tail_merge::entries(phi), c.side) == Some(c.update)) by {
            reveal(stands);
        }
        lemma_one_phi(list, c.phi_at, n, c.side, mid);
        assert(f.value(c.update).kind is Inst && f.value(c.phi).kind is Inst) by {
            reveal(stands);
            assert(f.block(c.side).insts[c.at].result == Some(c.update));
            assert(f.block(c.merge).insts[c.phi_at].result == Some(c.phi));
        }
        (1, mid.insert(c.phi, val))
    } else {
        assert(util::incoming_from(tail_merge::entries(phi), c.idle) == Some(c.other)) by {
            reveal(stands);
        }
        lemma_one_phi(list, c.phi_at, n, c.idle, env);
        assert(f.value(c.phi).kind is Inst) by {
            assert(f.block(c.merge).insts[c.phi_at].result == Some(c.phi));
        }
        if c.idle == c.head {
            assert(s == semantics::arrived(f, c.head, c.merge, env, memory)) by {
                reveal(stands);
            }
            assert(semantics::steps(f, m, s, 0) == s);
            (0, env.insert(c.phi, env[c.other]))
        } else {
            assert(s == semantics::arrived(f, c.head, c.idle, env, memory)) by {
                reveal(stands);
            }
            assert(semantics::step(f, m, s) == semantics::arrived::<D, M>(
                f,
                c.idle,
                c.merge,
                env,
                memory,
            )) by {
                reveal(stands);
                meaning_laws::lemma_passed_through(f, m, c.idle, c.merge, c.head, env, memory);
            }
            (1, env.insert(c.phi, env[c.other]))
        }
    }
}

/// A list with a single operation.
proof fn lemma_one_operation<D, M>(
    m: Meaning<D, M>,
    insts: Seq<InstView>,
    at: int,
    n: int,
    env: Map<ValueId, D>,
    memory: M,
)
    requires
        m.computes_apart_from_memory(),
        n <= insts.len(),
        0 <= at < insts.len(),
        semantics::is_plain(insts[at].kind),
        insts[at].result is Some,
        forall|i: int| 0 <= i < insts.len() && i != at ==> (#[trigger] insts[i]).kind is Nop,
    ensures
        semantics::executed(m, insts, n, env, memory) == if at < n {
            (
                env.insert(
                    insts[at].result->0,
                    (m.apply)(
                        semantics::shape(insts[at].kind),
                        edit::operands(insts[at].kind).map_values(|v: ValueId| env[v]),
                        memory,
                    ).0,
                ),
                memory,
            )
        } else {
            (env, memory)
        },
    decreases n,
{
    if n > 0 {
        lemma_one_operation(m, insts, at, n - 1, env, memory);
        if n - 1 == at {
            assert(semantics::is_plain(semantics::shape(insts[at].kind)));
        } else {
            assert(insts[n - 1].kind is Nop);
        }
    }
}

/// What the head of the converted function does behind its old instructions.
proof fn lemma_head_converted<D, M>(
    f: FuncView,
    g: FuncView,
    m: Meaning<D, M>,
    c: Choice,
    kinds: Seq<KindView>,
    data: Map<ValueId, D>,
    memory: M,
)
    requires
        converts(f, g, m, c, kinds),
        f.has_block(c.head),
    ensures
        ({
            let y = g.block(c.head).insts;
            let n = f.block(c.head).insts.len() as int;
            let (mid, mem) = semantics::executed(m, y, n, data, memory);
            y.len() == n + kinds.len() && semantics::executed(m, y, y.len() as int, data, memory)
                == semantics::executed(m, extra(f, kinds), kinds.len() as int, mid, mem)
        }),
        g.terminator(c.head) == Some(Terminator::Jump(c.merge)),
{
    reveal(converts);
    reveal(described);
    let y = g.block(c.head).insts;
    let n = f.block(c.head).insts.len() as int;
    let x = y.take(n);
    let more = extra(f, kinds);
    let ren = renaming(f, c, kinds);
    assert(f.has_block(c.head));
    assert(y =~= x + more) by {
        assert forall|i: int| n <= i < y.len() implies y[i] == more[i - n] by {
            assert(g.block(c.head).insts[i] == converted_inst(f, c, kinds, c.head, i));
            let j = i - n;
            assert(c.side != c.head && !(c.head == c.merge && i == c.phi_at)) by {
                reveal(stands);
            }
            assert(semantics::ignores(kinds[j], set![c.phi]));
            lemma_renaming_idle(kinds[j], ren, c.phi);
        }
    }
    semantics::lemma_executed_in_turn(m, x, more, kinds.len() as int, data, memory);
    semantics::lemma_executed_prefix(m, y, x, n, data, memory);
}

/// An operation that does not read the phi is not changed.
proof fn lemma_renaming_idle(kind: KindView, ren: spec_fn(ValueId) -> ValueId, phi: ValueId)
    requires
        semantics::ignores(kind, set![phi]),
        semantics::is_plain(kind),
        forall|v: ValueId| v != phi ==> #[trigger] ren(v) == v,
    ensures
        util::map_kind(kind, ren) == kind,
{
    let list = edit::operands(kind);
    assert forall|k: int| 0 <= k < list.len() implies ren(#[trigger] list[k]) == list[k] by {
        assert(!set![phi].contains(list[k]));
    }
    match kind {
        KindView::Gep { base, indices } => {
            assert(list[0] == base);
            assert forall|k: int| 0 <= k < indices.len() implies ren(#[trigger] indices[k])
                == indices[k] by {
                assert(list[k + 1] == indices[k]);
            }
            assert(indices.map_values(ren) =~= indices);
        },
        KindView::Unary { value, .. } => {
            assert(list[0] == value);
        },
        KindView::Cast { value, .. } => {
            assert(list[0] == value);
        },
        KindView::Binary { lhs, rhs, .. } => {
            assert(list[0] == lhs && list[1] == rhs);
        },
        KindView::ICompare { lhs, rhs, .. } => {
            assert(list[0] == lhs && list[1] == rhs);
        },
        KindView::FCompare { lhs, rhs, .. } => {
            assert(list[0] == lhs && list[1] == rhs);
        },
        _ => {},
    }
}

/// The states of the two runs correspond, and control is not in an arm.
#[verifier::opaque]
pub open spec fn corresponds<D, M>(
    f: FuncView,
    m: Meaning<D, M>,
    c: Choice,
    kinds: Seq<KindView>,
    s: State<D, M>,
    t: State<D, M>,
) -> bool {
    match (s, t) {
        (
            State::Running { block, env, memory },
            State::Running { block: other, env: data, memory: mem },
        ) => block == other && f.has_block(block) && block != c.side && (block == c.idle ==> c.idle
            == c.head) && memory == mem && in_step(f, c, kinds, env, data)
            && meaning_laws::constants_kept(f, m, env),
        (State::Running { .. }, _) => false,
        (_, State::Running { .. }) => false,
        _ => s == t,
    }
}

/// A step from the head.
proof fn lemma_step_head<D, M>(
    f: FuncView,
    g: FuncView,
    m: Meaning<D, M>,
    c: Choice,
    kinds: Seq<KindView>,
    env: Map<ValueId, D>,
    data: Map<ValueId, D>,
    memory: M,
) -> (k: nat)
    requires
        converts(f, g, m, c, kinds),
        threading_laws::fits(f),
        in_step(f, c, kinds, env, data),
        meaning_laws::constants_kept(f, m, env),
    ensures
        k >= 1,
        corresponds(
            f,
            m,
            c,
            kinds,
            semantics::steps(f, m, State::Running { block: c.head, env, memory }, k),
            semantics::step(g, m, State::Running { block: c.head, env: data, memory }),
        ),
{
    reveal(corresponds);
    let s = State::Running { block: c.head, env, memory };
    let t = State::Running { block: c.head, env: data, memory };
    let x = f.block(c.head).insts;
    let y = g.block(c.head).insts;
    let n = x.len() as int;
    let gone = unread(f, c, kinds);
    assert(f.has_block(c.head) && c.head != c.side && f.has_block(c.merge) && c.merge != c.side && (
    c.merge == c.idle ==> c.idle == c.head)) by {
        reveal(converts);
        reveal(stands);
    }
    assert(verify::valid(f) && inputs_kept(f, c, kinds) && compute_the_choice(f, m, c, kinds)
        && described(f, g, c, kinds) && stands(f, c)) by {
        reveal(converts);
    }
    meaning_laws::lemma_results_are_computed(f);
    lemma_executed_in_step(f, g, m, c, kinds, c.head, n, env, data, memory);
    meaning_laws::lemma_execution_keeps_constants(f, m, c.head, n, env, memory);
    let (e, mem) = semantics::executed(m, x, n, env, memory);
    let (d, _) = semantics::executed(m, y, n, data, memory);
    lemma_head_converted(f, g, m, c, kinds, data, memory);
    assert(meaning_laws::constants_kept(f, m, d)) by {
        assert forall|v: ValueId| f.has_value(v) implies match #[trigger] f.value(v).kind {
            ValueKindView::Const(k) => d[v] == (m.constant)(k),
            _ => true,
        } by {
            if f.value(v).kind is Const {
                lemma_constants_are_kept(f, c, kinds, v);
                assert(e[v] == d[v]);
            }
        }
    }
    let (last, _) = semantics::executed(m, extra(f, kinds), kinds.len() as int, d, mem);
    assert(semantics::executed(m, extra(f, kinds), kinds.len() as int, d, mem).1 == mem
        && last[chosen(f, kinds)] == choice(f, m, c, d, mem) && forall|v: ValueId|
        !(f.values.len() <= v.0 < f.values.len() + kinds.len()) ==> #[trigger] last[v] == d[v])
        by {
        reveal(compute_the_choice);
    }
    assert(choice(f, m, c, d, mem) == choice(f, m, c, e, mem)) by {
        semantics::lemma_same_data(f.inst(c.side, c.at).kind, e, d, gone);
        assert(e[c.cond] == d[c.cond]);
        assert(e[c.other] == d[c.other]);
    }
    // The merge of the converted function holds no phi.
    let list = g.block(c.merge).insts;
    assert forall|i: int| 0 <= i < list.len() implies !((#[trigger] list[i]).kind is Phi)
        || list[i].result is None by {
        lemma_merge_converted(f, g, m, c, kinds, i);
    }
    semantics::lemma_nothing_assigned(list, list.len() as int, c.head, last);
    assert(semantics::step(g, m, t) == (State::Running { block: c.merge, env: last, memory: mem }));
    let (k, after) = lemma_choice_made(f, g, m, c, kinds, e, mem);
    assert(semantics::step(f, m, s) == semantics::left(f, m, c.head, e, mem));
    semantics::lemma_steps_add(f, m, s, 1, k);
    semantics::lemma_few_steps(f, m, s);
    assert(in_step(f, c, kinds, after, last)) by {
        assert forall|v: ValueId| !gone.contains(v) implies #[trigger] after[v] == last[v] by {
            assert(after[v] == e[v]);
            assert(e[v] == d[v]);
            assert(last[v] == d[v]);
        }
    }
    1 + k
}

/// Constants are neither the phi nor the update nor new.
pub proof fn lemma_constants_are_kept(f: FuncView, c: Choice, kinds: Seq<KindView>, v: ValueId)
    requires
        verify::valid(f),
        stands(f, c),
        f.has_value(v),
        f.value(v).kind is Const,
    ensures
        !unread(f, c, kinds).contains(v),
{
    reveal(stands);
    meaning_laws::lemma_results_are_computed(f);
    assert(f.block(c.side).insts[c.at].result == Some(c.update));
    assert(f.block(c.merge).insts[c.phi_at].result == Some(c.phi));
}

pub proof fn lemma_merge_converted<D, M>(
    f: FuncView,
    g: FuncView,
    m: Meaning<D, M>,
    c: Choice,
    kinds: Seq<KindView>,
    i: int,
)
    requires
        converts(f, g, m, c, kinds),
        0 <= i < g.block(c.merge).insts.len(),
    ensures
        !(g.block(c.merge).insts[i].kind is Phi),
{
    reveal(converts);
    reveal(described);
    reveal(stands);
    assert(f.has_block(c.merge));
    assert(g.block(c.merge).insts[i] == converted_inst(f, c, kinds, c.merge, i));
    if i != c.phi_at {
        if i < f.block(c.merge).insts.len() {
            assert(!(f.block(c.merge).insts[i].kind is Phi));
        } else {
            assert(semantics::is_plain(kinds[i - f.block(c.merge).insts.len()]));
        }
    }
}

/// A step from another block.
proof fn lemma_step_elsewhere<D, M>(
    f: FuncView,
    g: FuncView,
    m: Meaning<D, M>,
    c: Choice,
    kinds: Seq<KindView>,
    b: BlockId,
    env: Map<ValueId, D>,
    data: Map<ValueId, D>,
    memory: M,
)
    requires
        converts(f, g, m, c, kinds),
        threading_laws::fits(f),
        f.has_block(b),
        b != c.head,
        b != c.side,
        b != c.idle,
        in_step(f, c, kinds, env, data),
        meaning_laws::constants_kept(f, m, env),
    ensures
        corresponds(
            f,
            m,
            c,
            kinds,
            semantics::step(f, m, State::Running { block: b, env, memory }),
            semantics::step(g, m, State::Running { block: b, env: data, memory }),
        ),
{
    reveal(corresponds);
    let x = f.block(b).insts;
    let y = g.block(b).insts;
    let n = x.len() as int;
    let ren = renaming(f, c, kinds);
    assert(verify::valid(f) && described(f, g, c, kinds) && stands(f, c)) by {
        reveal(converts);
    }
    meaning_laws::lemma_results_are_computed(f);
    lemma_executed_in_step(f, g, m, c, kinds, b, n, env, data, memory);
    meaning_laws::lemma_execution_keeps_constants(f, m, b, n, env, memory);
    let (e, mem) = semantics::executed(m, x, n, env, memory);
    let (d, _) = semantics::executed(m, y, n, data, memory);
    assert(y.len() == n && g.terminator(b) == util::map_terminator(f.terminator(b), ren)) by {
        reveal(described);
        assert(f.has_block(b));
    }
    query::lemma_terminator_wf(f, b);
    meaning_laws::lemma_targets(f, b);
    let reads = edit::terminator_reads(f.terminator(b));
    assert(!reads.contains(c.update)) by {
        reveal(stands);
        tail_laws::lemma_read_along(f, c.update, c.merge, c.phi_at, c.side);
    }
    match f.terminator(b) {
        Some(Terminator::Return(Some(v))) => {
            assert(reads[0] == v);
            lemma_operand_in_step(f, c, kinds, e, d, v);
        },
        Some(Terminator::Jump(t)) => {
            lemma_target_elsewhere(f, c, b, t);
            lemma_arrival_in_step(f, g, m, c, kinds, b, t, e, d);
            let k = f.block(t).insts.len() as int;
            meaning_laws::lemma_assignment_keeps_constants(f, m, t, k, b, e);
        },
        Some(Terminator::Branch { cond, then_target, else_target }) => {
            assert(reads[0] == cond);
            lemma_operand_in_step(f, c, kinds, e, d, cond);
            lemma_target_elsewhere(f, c, b, then_target);
            lemma_target_elsewhere(f, c, b, else_target);
            lemma_arrival_in_step(f, g, m, c, kinds, b, then_target, e, d);
            lemma_arrival_in_step(f, g, m, c, kinds, b, else_target, e, d);
            let k = f.block(then_target).insts.len() as int;
            meaning_laws::lemma_assignment_keeps_constants(f, m, then_target, k, b, e);
            let j = f.block(else_target).insts.len() as int;
            meaning_laws::lemma_assignment_keeps_constants(f, m, else_target, j, b, e);
        },
        _ => {},
    }
}

/// Other blocks lead neither to the arms nor to the merge.
proof fn lemma_target_elsewhere(f: FuncView, c: Choice, b: BlockId, t: BlockId)
    requires
        stands(f, c),
        f.has_block(b),
        b != c.head,
        b != c.side,
        b != c.idle,
        cfg::edge(f, b, t),
    ensures
        t != c.side,
        t != c.merge,
        t == c.idle ==> c.idle == c.head,
{
    reveal(stands);
}

proof fn lemma_step_converted<D, M>(
    f: FuncView,
    g: FuncView,
    m: Meaning<D, M>,
    c: Choice,
    kinds: Seq<KindView>,
    s: State<D, M>,
    t: State<D, M>,
) -> (k: nat)
    requires
        converts(f, g, m, c, kinds),
        threading_laws::fits(f),
        corresponds(f, m, c, kinds, s, t),
    ensures
        k >= 1,
        corresponds(f, m, c, kinds, semantics::steps(f, m, s, k), semantics::step(g, m, t)),
{
    semantics::lemma_few_steps(f, m, s);
    match (s, t) {
        (
            State::Running { block, env, memory },
            State::Running { block: _, env: data, memory: _ },
        ) => {
            assert(t == (State::Running { block, env: data, memory }) && f.has_block(block) && block
                != c.side && (block == c.idle ==> c.idle == c.head) && in_step(
                f,
                c,
                kinds,
                env,
                data,
            ) && meaning_laws::constants_kept(f, m, env)) by {
                reveal(corresponds);
            }
            if block == c.head {
                lemma_step_head(f, g, m, c, kinds, env, data, memory)
            } else {
                lemma_step_elsewhere(f, g, m, c, kinds, block, env, data, memory);
                1
            }
        },
        _ => {
            reveal(corresponds);
            1
        },
    }
}

proof fn lemma_conversion_follows<D, M>(
    f: FuncView,
    g: FuncView,
    m: Meaning<D, M>,
    c: Choice,
    kinds: Seq<KindView>,
    rel: spec_fn(State<D, M>, State<D, M>) -> bool,
)
    requires
        converts(f, g, m, c, kinds),
        threading_laws::fits(f),
        rel == (|s: State<D, M>, t: State<D, M>| corresponds(f, m, c, kinds, s, t)),
    ensures
        semantics::follows(f, g, m, rel),
{
    assert forall|s: State<D, M>, t: State<D, M>| #[trigger] semantics::caught_up(
        f,
        g,
        m,
        rel,
        s,
        t,
    ) by {
        if rel(s, t) {
            let k = lemma_step_converted(f, g, m, c, kinds, s, t);
            assert(rel(semantics::steps(f, m, s, k), semantics::step(g, m, t)));
        }
    }
}

proof fn lemma_conversion_start<D, M>(
    f: FuncView,
    g: FuncView,
    m: Meaning<D, M>,
    c: Choice,
    kinds: Seq<KindView>,
    args: Map<ValueId, D>,
    memory: M,
)
    requires
        converts(f, g, m, c, kinds),
        phi_and_choice_agree(f, g, c, kinds),
    ensures
        corresponds(
            f,
            m,
            c,
            kinds,
            semantics::start(f, m, args, memory),
            semantics::start(g, m, args, memory),
        ),
{
    reveal(corresponds);
    reveal(converts);
    reveal(described);
    let x = semantics::initial(f, m, args);
    let y = semantics::initial(g, m, args);
    let gone = unread(f, c, kinds);
    assert forall|v: ValueId| !gone.contains(v) implies #[trigger] x[v] == y[v] by {
        if f.has_value(v) {
            assert(g.values[v.0 as int] == f.values[v.0 as int]);
        }
    }
    assert(f.entry != c.side && (f.entry == c.idle ==> c.idle == c.head)) by {
        reveal(stands);
        meaning_laws::lemma_targets(f, c.head);
    }
    assert(f.has_value(c.phi) && f.value(c.phi).kind is Inst) by {
        reveal(stands);
        query::lemma_inst_wf(f, c.merge, c.phi_at);
        meaning_laws::lemma_results_are_computed(f);
        assert(f.block(c.merge).insts[c.phi_at].result == Some(c.phi));
    }
}

/// The chosen value is the result of an instruction, and of the type of the phi.
pub open spec fn phi_and_choice_agree(
    f: FuncView,
    g: FuncView,
    c: Choice,
    kinds: Seq<KindView>,
) -> bool {
    let w = chosen(f, kinds);
    g.value(w).kind is Inst && g.value(w).ty == f.value(c.phi).ty
}

proof fn lemma_ends_alike<D, M>(f: FuncView, m: Meaning<D, M>, c: Choice, kinds: Seq<KindView>)
    ensures
        semantics::end_alike(
            |s: State<D, M>, t: State<D, M>| corresponds(f, m, c, kinds, s, t),
        ),
{
    reveal(corresponds);
}

/// A conversion keeps what every call returns.
pub proof fn lemma_conversion<D, M>(
    f: FuncView,
    g: FuncView,
    m: Meaning<D, M>,
    c: Choice,
    kinds: Seq<KindView>,
    args: Map<ValueId, D>,
    memory: M,
    out: State<D, M>,
)
    requires
        converts(f, g, m, c, kinds),
        threading_laws::fits(f),
        phi_and_choice_agree(f, g, c, kinds),
    ensures
        semantics::yields(g, m, args, memory, out) == semantics::yields(f, m, args, memory, out),
{
    let rel = |s: State<D, M>, t: State<D, M>| corresponds(f, m, c, kinds, s, t);
    lemma_conversion_follows(f, g, m, c, kinds, rel);
    lemma_ends_alike(f, m, c, kinds);
    lemma_conversion_start(f, g, m, c, kinds, args, memory);
    semantics::followers_compute_the_same(f, g, m, rel, args, memory, out);
}

// ---------------------------------------------------------------------------
// The converted function
// ---------------------------------------------------------------------------

/// The function with operations appended to a block.
pub open spec fn appended(
    f: FuncView,
    b: BlockId,
    kinds: Seq<KindView>,
    types: Seq<Type>,
    n: int,
) -> FuncView
    decreases n,
{
    if n <= 0 {
        f
    } else {
        appended(f, b, kinds, types, n - 1).append(b, kinds[n - 1], types[n - 1])
    }
}

proof fn lemma_appended(f: FuncView, b: BlockId, kinds: Seq<KindView>, types: Seq<Type>, n: int)
    requires
        f.has_block(b),
        0 <= n <= kinds.len(),
        kinds.len() == types.len(),
        f.values.len() + kinds.len() <= usize::MAX,
    ensures
        ({
            let g = appended(f, b, kinds, types, n);
            &&& g.entry == f.entry
            &&& g.values.len() == f.values.len() + n
            &&& forall|v: int| 0 <= v < f.values.len() ==> (#[trigger] g.values[v]) == f.values[v]
            &&& forall|j: int|
                0 <= j < n ==> (#[trigger] g.values[f.values.len() + j]).kind is Inst
                    && g.values[f.values.len() + j].ty == types[j]
            &&& g.blocks.len() == f.blocks.len()
            &&& forall|q: BlockId| #[trigger]
                f.has_block(q) && q != b ==> g.block(q) == f.block(q)
            &&& g.terminator(b) == f.terminator(b)
            &&& g.block(b).insts == f.block(b).insts + extra(f, kinds).take(n)
        }),
    decreases n,
{
    if n > 0 {
        lemma_appended(f, b, kinds, types, n - 1);
        let before = appended(f, b, kinds, types, n - 1);
        let g = appended(f, b, kinds, types, n);
        assert(extra(f, kinds).take(n) =~= extra(f, kinds).take(n - 1).push(extra(f, kinds)[n - 1]));
        assert(g.block(b).insts =~= f.block(b).insts + extra(f, kinds).take(n));
        assert forall|j: int| 0 <= j < n implies (#[trigger] g.values[f.values.len() + j]).kind
            is Inst && g.values[f.values.len() + j].ty == types[j] by {
            if j < n - 1 {
                assert(before.values[f.values.len() + j].kind is Inst);
                assert(g.values[f.values.len() + j] == before.values[f.values.len() + j]);
            }
        }
    } else {
        assert(extra(f, kinds).take(0) =~= Seq::<InstView>::empty());
        assert(f.block(b).insts =~= f.block(b).insts + extra(f, kinds).take(0));
    }
}

/// The function with the choice computed without a branch.
pub open spec fn converted(
    f: FuncView,
    c: Choice,
    kinds: Seq<KindView>,
    types: Seq<Type>,
) -> FuncView {
    let h = appended(f, c.head, kinds, types, kinds.len() as int).with_terminator(
        c.head,
        Some(Terminator::Jump(c.merge)),
    ).with_inst(c.side, c.at, edit::nop()).with_inst(c.merge, c.phi_at, edit::nop());
    if_convert::replaced(h, c.phi, chosen(f, kinds))
}

proof fn lemma_resolved(phi: ValueId, w: ValueId, fuel: nat, v: ValueId)
    requires
        fuel >= 1,
        phi != w,
    ensures
        util::resolver(Map::<ValueId, ValueId>::empty().insert(phi, w), fuel)(v) == if v == phi {
            w
        } else {
            v
        },
{
    reveal_with_fuel(util::resolve, 2);
}

pub proof fn lemma_converted(f: FuncView, c: Choice, kinds: Seq<KindView>, types: Seq<Type>)
    requires
        f.wf(),
        stands(f, c),
        kinds.len() > 0,
        kinds.len() == types.len(),
        f.values.len() + kinds.len() <= usize::MAX,
        types.last() == f.value(c.phi).ty,
    ensures
        described(f, converted(f, c, kinds, types), c, kinds),
        phi_and_choice_agree(f, converted(f, c, kinds, types), c, kinds),
{
    reveal(stands);
    reveal(described);
    let n = kinds.len() as int;
    lemma_appended(f, c.head, kinds, types, n);
    let a = appended(f, c.head, kinds, types, n);
    let w = chosen(f, kinds);
    let h = a.with_terminator(c.head, Some(Terminator::Jump(c.merge))).with_inst(
        c.side,
        c.at,
        edit::nop(),
    ).with_inst(c.merge, c.phi_at, edit::nop());
    let g = converted(f, c, kinds, types);
    let ren = renaming(f, c, kinds);
    let res = util::resolver(Map::<ValueId, ValueId>::empty().insert(c.phi, w), h.values.len());
    query::lemma_inst_wf(f, c.merge, c.phi_at);
    assert(c.phi != w);
    assert(res =~= ren) by {
        assert forall|v: ValueId| #[trigger] res(v) == ren(v) by {
            lemma_resolved(c.phi, w, h.values.len(), v);
        }
    }
    assert(extra(f, kinds).take(n) =~= extra(f, kinds));
    assert(g == util::map_uses(h, ren));
    assert(a.values[f.values.len() + (n - 1)].kind is Inst);
    assert forall|b: BlockId| #[trigger] f.has_block(b) implies g.terminator(b) == (if b == c.head {
        Some(Terminator::Jump(c.merge))
    } else {
        util::map_terminator(f.terminator(b), ren)
    }) && g.block(b).insts.len() == f.block(b).insts.len() + (if b == c.head {
        kinds.len()
    } else {
        0
    }) by {
        assert(h.terminator(b) == (if b == c.head {
            Some(Terminator::Jump(c.merge))
        } else {
            f.terminator(b)
        }));
        assert(g.blocks[b.0 as int] == util::map_block(h.blocks[b.0 as int], 0, ren));
    }
    assert forall|b: BlockId, i: int| f.has_block(b) && 0 <= i < g.block(b).insts.len() implies (
    #[trigger] g.block(b).insts[i]) == converted_inst(f, c, kinds, b, i) by {
        assert(f.has_block(b));
        assert(g.blocks[b.0 as int] == util::map_block(h.blocks[b.0 as int], 0, ren));
        assert(g.block(b).insts[i] == util::map_inst(h.block(b).insts[i], ren));
    }
}

/// The new values are results of instructions.
pub proof fn lemma_new_values(f: FuncView, c: Choice, kinds: Seq<KindView>, types: Seq<Type>)
    requires
        f.has_block(c.head),
        kinds.len() == types.len(),
        f.values.len() + kinds.len() <= usize::MAX,
    ensures
        forall|j: int|
            0 <= j < kinds.len() ==> (#[trigger] converted(f, c, kinds, types).values[f.values.len()
                + j]).kind is Inst,
{
    lemma_appended(f, c.head, kinds, types, kinds.len() as int);
}

} // verus!
