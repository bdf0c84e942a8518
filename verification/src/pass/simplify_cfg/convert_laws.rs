//! If-conversion keeps what a function computes.
use vstd::prelude::*;

use crate::cfg;
use crate::edit;
use crate::ir;
use crate::ir::{
    BinaryOp, BlockId, CastOp, Const, FuncView, InstView, KindView, Terminator, Type, UnaryOp,
    ValueId, ValueKindView,
};
use crate::pass::simplify_cfg::if_convert;
use crate::pass::simplify_cfg::if_convert::{ConditionalUpdate, ShortCircuit};
use crate::pass::simplify_cfg::meaning_laws;
use crate::pass::simplify_cfg::select_laws;
use crate::pass::simplify_cfg::select_laws::Choice;
use crate::pass::simplify_cfg::tail_laws;
use crate::pass::simplify_cfg::tail_merge;
use crate::pass::simplify_cfg::threading_laws;
use crate::query;
use crate::semantics;
use crate::semantics::{Meaning, State};
use crate::util;
use crate::verify;

verus! {

// ---------------------------------------------------------------------------
// What is asked of the function
// ---------------------------------------------------------------------------

/// Constants have the type of their kind, and phis that of what they take.
pub open spec fn well_typed(f: FuncView) -> bool {
    &&& forall|v: ValueId|
        f.has_value(v) ==> (#[trigger] f.value(v).kind matches ValueKindView::Const(c) ==> f.value(
            v,
        ).ty == ir::const_type(c))
    &&& forall|b: BlockId, i: int|
        f.has_block(b) && 0 <= i < f.block(b).insts.len() ==> phi_typed(
            f,
            #[trigger] f.block(b).insts[i],
        )
}

/// The entries of a phi have the type of the phi.
pub open spec fn phi_typed(f: FuncView, inst: InstView) -> bool {
    match (inst.result, inst.kind) {
        (Some(v), KindView::Phi { incomings }) => forall|k: int|
            0 <= k < incomings.len() ==> f.value((#[trigger] incomings[k]).1).ty == f.value(v).ty,
        _ => true,
    }
}

/// Every block, and the table of values, has room for the new operations of
/// `n` conversions.
pub open spec fn has_room(f: FuncView, n: int) -> bool {
    &&& f.blocks.len() <= usize::MAX
    &&& f.values.len() + 4 * n <= usize::MAX
    &&& forall|b: BlockId| #[trigger]
        f.has_block(b) ==> f.block(b).insts.len() + 4 * n <= usize::MAX
}

// ---------------------------------------------------------------------------
// Both kinds of conversion
// ---------------------------------------------------------------------------

/// A valid result shows that the new operations do not read the phi.
proof fn lemma_skips(
    f: FuncView,
    c: Choice,
    kinds: Seq<KindView>,
    types: Seq<Type>,
)
    requires
        f.wf(),
        select_laws::stands(f, c),
        kinds.len() > 0,
        kinds.len() == types.len(),
        f.values.len() + kinds.len() <= usize::MAX,
        f.has_block(c.head),
        f.block(c.head).insts.len() + kinds.len() <= usize::MAX,
        types.last() == f.value(c.phi).ty,
        forall|j: int| 0 <= j < kinds.len() ==> semantics::is_plain(#[trigger] kinds[j]),
        verify::valid(select_laws::converted(f, c, kinds, types)),
    ensures
        select_laws::skip_the_phi(c, kinds),
{
    let g = select_laws::converted(f, c, kinds, types);
    let n = f.block(c.head).insts.len() as int;
    let k = kinds.len() as int;
    let w = select_laws::chosen(f, kinds);
    let ren = select_laws::renaming(f, c, kinds);
    select_laws::lemma_converted(f, c, kinds, types);
    reveal(select_laws::described);
    assert(f.has_block(c.head));
    assert(g.has_block(c.head));
    assert(c.head != c.side && (c.head == c.merge ==> c.phi_at < n)) by {
        reveal(select_laws::stands);
    }
    assert(verify::block_valid(g, c.head));
    let last = n + k - 1;
    assert(g.block(c.head).insts[last] == select_laws::converted_inst(f, c, kinds, c.head, last));
    assert(verify::inst_valid(g, c.head, last));
    assert(g.value(w).kind == ValueKindView::Inst(c.head, last as usize));
    assert forall|j: int| 0 <= j < k implies semantics::ignores(
        #[trigger] kinds[j],
        set![c.phi],
    ) by {
        let i = n + j;
        let list = edit::operands(kinds[j]);
        assert(semantics::is_plain(kinds[j]));
        assert forall|a: int| 0 <= a < list.len() implies !set![c.phi].contains(
            #[trigger] list[a],
        ) by {
            if list[a] == c.phi {
                assert(g.block(c.head).insts[i] == select_laws::converted_inst(
                    f,
                    c,
                    kinds,
                    c.head,
                    i,
                ));
                assert(verify::inst_valid(g, c.head, i));
                select_laws::lemma_operands_mapped(kinds[j], ren);
                let mapped = edit::operands(util::map_kind(kinds[j], ren));
                assert(mapped[a] == w);
                assert(!(util::map_kind(kinds[j], ren) is Phi));
                assert(verify::available(g, mapped[a], c.head, i));
            }
        }
    }
}

/// The conversion keeps what is asked of the function.
proof fn lemma_kept(f: FuncView, c: Choice, kinds: Seq<KindView>, types: Seq<Type>, n: int)
    requires
        f.wf(),
        select_laws::stands(f, c),
        0 < kinds.len() <= 4,
        kinds.len() == types.len(),
        types.last() == f.value(c.phi).ty,
        forall|j: int| 0 <= j < kinds.len() ==> semantics::is_plain(#[trigger] kinds[j]),
        well_typed(f),
        has_room(f, n + 1),
        n >= 0,
        select_laws::entered_once(f),
    ensures
        well_typed(select_laws::converted(f, c, kinds, types)),
        has_room(select_laws::converted(f, c, kinds, types), n),
        select_laws::entered_once(select_laws::converted(f, c, kinds, types)),
{
    let g = select_laws::converted(f, c, kinds, types);
    let ren = select_laws::renaming(f, c, kinds);
    let w = select_laws::chosen(f, kinds);
    select_laws::lemma_converted(f, c, kinds, types);
    assert(f.has_block(c.head)) by {
        reveal(select_laws::stands);
    }
    select_laws::lemma_new_values(f, c, kinds, types);
    reveal(select_laws::described);
    assert forall|b: BlockId| #[trigger] g.has_block(b) implies g.block(b).insts.len() + 4 * n
        <= usize::MAX by {
        assert(f.has_block(b));
    }
    assert forall|v: ValueId| g.has_value(v) implies (#[trigger] g.value(v).kind matches
        ValueKindView::Const(k) ==> g.value(v).ty == ir::const_type(k)) by {
        if f.has_value(v) {
            assert(g.values[v.0 as int] == f.values[v.0 as int]);
            assert(f.value(v).kind == g.value(v).kind);
        } else {
            let j = v.0 - f.values.len();
            assert(g.values[f.values.len() + j].kind is Inst);
        }
    }
    assert forall|b: BlockId, i: int| g.has_block(b) && 0 <= i < g.block(b).insts.len() implies
        phi_typed(g, #[trigger] g.block(b).insts[i]) by {
        assert(f.has_block(b));
        assert(g.block(b).insts[i] == select_laws::converted_inst(f, c, kinds, b, i));
        if i < f.block(b).insts.len() {
            let inst = f.block(b).insts[i];
            query::lemma_inst_wf(f, b, i);
            assert(phi_typed(f, inst));
            if let (Some(v), KindView::Phi { incomings }) = (inst.result, inst.kind) {
                assert(g.values[v.0 as int] == f.values[v.0 as int]);
                let list = util::map_incomings(incomings, ren);
                assert forall|k: int| 0 <= k < list.len() implies g.value(
                    (#[trigger] list[k]).1,
                ).ty == g.value(v).ty by {
                    let u = incomings[k].1;
                    assert(u.0 < f.values.len());
                    assert(g.values[u.0 as int] == f.values[u.0 as int]);
                }
            }
        } else {
            assert(semantics::is_plain(kinds[i - f.block(b).insts.len()]));
        }
    }
    assert forall|q: BlockId| g.has_block(q) implies !#[trigger] cfg::edge(g, q, g.entry) by {
        assert(f.has_block(q));
        assert(!cfg::edge(f, q, f.entry));
        threading_laws::lemma_succ(g.terminator(q), g.entry);
        threading_laws::lemma_succ(f.terminator(q), f.entry);
        if q == c.head {
            assert(c.merge != f.entry) by {
                reveal(select_laws::stands);
                meaning_laws::lemma_targets(f, c.side);
                assert(cfg::edge(f, c.side, c.merge));
            }
        }
    }
}

/// What the choice depends on is the same in both runs.
proof fn lemma_inputs(f: FuncView, c: Choice, kinds: Seq<KindView>)
    requires
        verify::valid(f),
        select_laws::stands(f, c),
        c.cond != c.phi,
        c.other != c.phi,
        c.other != c.update,
        c.other.0 < f.values.len(),
        semantics::ignores(f.inst(c.side, c.at).kind, set![c.phi]),
    ensures
        select_laws::inputs_kept(f, c, kinds),
{
    let gone = select_laws::unread(f, c, kinds);
    let kind = f.inst(c.side, c.at).kind;
    let list = edit::operands(kind);
    assert(f.has_block(c.side) && f.has_block(c.head) && 0 <= c.at < f.block(c.side).insts.len()
        && c.side != c.merge) by {
        reveal(select_laws::stands);
    }
    select_laws::lemma_update_read(f, c, c.side, c.at);
    assert forall|k: int| 0 <= k < list.len() implies !gone.contains(#[trigger] list[k]) by {
        assert(!set![c.phi].contains(list[k]));
        assert(edit::operands(f.block(c.side).insts[c.at].kind)[k] != c.update);
    }
    query::lemma_terminator_wf(f, c.head);
    let reads = edit::terminator_reads(f.terminator(c.head));
    assert(reads.len() == 1 && reads[0] == c.cond && c.cond.0 < f.values.len()) by {
        reveal(select_laws::stands);
    }
    assert(!reads.contains(c.update)) by {
        reveal(select_laws::stands);
        tail_laws::lemma_read_along(f, c.update, c.merge, c.phi_at, c.side);
    }
    assert(c.cond != c.update);
}

// ---------------------------------------------------------------------------
// Short circuits
// ---------------------------------------------------------------------------

/// Where a block has a single operation, the rest are empty slots.
proof fn lemma_single_operation(f: FuncView, b: BlockId)
    requires
        threading_laws::fits(f),
        f.has_block(b),
        query::active(f, b).len() == 1,
    ensures
        f.has_inst(b, query::active(f, b)[0] as int),
        forall|i: int|
            0 <= i < f.block(b).insts.len() && i != query::active(f, b)[0] ==> (#[trigger] f.block(
                b,
            ).insts[i]).kind is Nop,
{
    let insts = f.block(b).insts;
    let at = query::active(f, b);
    assert(f.has_block(b));
    query::lemma_active_below(insts, insts.len() as int);
    assert forall|i: int| 0 <= i < insts.len() && i != at[0] implies (
    #[trigger] insts[i]).kind is Nop by {
        if !(insts[i].kind is Nop) {
            threading_laws::lemma_active_complete(insts, insts.len() as int, i);
            let k = choose|k: int| 0 <= k < at.len() && at[k] == i as usize;
            assert(k == 0);
        }
    }
}

/// What a phi with two entries takes.
proof fn lemma_two_entries(incomings: Seq<(BlockId, ValueId)>, k: int)
    requires
        incomings.len() == 2,
        k == 0 || k == 1,
        incomings[0].0 != incomings[1].0,
    ensures
        util::incoming_from(incomings, incomings[k].0) == Some(incomings[k].1),
{
    reveal_with_fuel(util::incoming_from, 3);
    assert(incomings.drop_first()[0] == incomings[1]);
}

/// Only the blocks of a list lead to a block.
proof fn lemma_only_preds(f: FuncView, b: BlockId, q: BlockId)
    requires
        f.blocks.len() <= usize::MAX,
        f.has_block(q),
        cfg::edge(f, q, b),
    ensures
        cfg::preds(f, b).contains(q),
{
    cfg::lemma_preds_below(f, b, f.blocks.len() as int, q);
}

/// The short circuit as a choice; entry `k` of the phi is the constant.
pub open spec fn short_choice(
    f: FuncView,
    c: ShortCircuit,
    incomings: Seq<(BlockId, ValueId)>,
    k: int,
) -> Choice {
    Choice {
        head: c.direct,
        cond: c.cond,
        update_when_true: !c.direct_when_true,
        side: c.rhs_block,
        at: c.rhs_at as int,
        update: incomings[1 - k].1,
        idle: c.direct,
        other: incomings[k].1,
        merge: c.merge,
        phi_at: c.phi_at as int,
        phi: c.phi,
    }
}

/// The new operations of a short circuit.
pub open spec fn short_kinds(f: FuncView, c: ShortCircuit) -> Seq<KindView> {
    let kind = f.inst(c.rhs_block, c.rhs_at as int).kind;
    let (op, negate) = if_convert::short_circuit_op(c.direct_when_true, c.constant);
    let rhs = select_laws::fresh(f, 0);
    if negate {
        seq![
            kind,
            KindView::Unary { op: UnaryOp::Not, value: c.cond },
            KindView::Binary { op, lhs: select_laws::fresh(f, 1), rhs },
        ]
    } else {
        seq![kind, KindView::Binary { op, lhs: c.cond, rhs }]
    }
}

pub open spec fn short_types(f: FuncView, c: ShortCircuit) -> Seq<Type> {
    Seq::new(short_kinds(f, c).len(), |j: int| Type::I1)
}

proof fn lemma_short_stands(
    f: FuncView,
    m: BlockId,
    phi_at: usize,
    phi: ValueId,
    incomings: Seq<(BlockId, ValueId)>,
    k: int,
)
    requires
        verify::valid(f),
        threading_laws::fits(f),
        f.has_block(m),
        query::active(f, m).len() == 1,
        query::active(f, m)[0] == phi_at,
        f.inst(m, phi_at as int).result == Some(phi),
        f.inst(m, phi_at as int).kind == (KindView::Phi { incomings }),
        incomings.len() == 2,
        k == 0 || k == 1,
        if_convert::short_circuit_entry(f, m, phi_at, phi, incomings, k) is Some,
    ensures
        select_laws::stands(
            f,
            short_choice(
                f,
                if_convert::short_circuit_entry(f, m, phi_at, phi, incomings, k)->0,
                incomings,
                k,
            ),
        ),
{
    reveal(select_laws::stands);
    let sc = if_convert::short_circuit_entry(f, m, phi_at, phi, incomings, k)->0;
    let c = short_choice(f, sc, incomings, k);
    lemma_single_operation(f, m);
    query::lemma_inst_wf(f, m, phi_at as int);
    assert(incomings[0].0.0 < f.blocks.len() && incomings[1].0.0 < f.blocks.len());
    lemma_single_operation(f, c.side);
    lemma_two_entries(incomings, k);
    lemma_two_entries(incomings, 1 - k);
    meaning_laws::lemma_targets(f, c.side);
    assert(select_laws::led_by(f, c.side, c.head)) by {
        assert forall|q: BlockId| f.has_block(q) && #[trigger] cfg::edge(f, q, c.side) implies q
            == c.head by {
            lemma_only_preds(f, c.side, q);
            let list = cfg::preds(f, c.side);
            let i = choose|i: int| 0 <= i < list.len() && list[i] == q;
            assert(i == 0);
        }
    }
    assert(c.side != c.merge) by {
        if c.side == c.merge {
            assert(cfg::edge(f, c.side, c.side));
        }
    }
    assert forall|q: BlockId| f.has_block(q) && #[trigger] cfg::edge(f, q, c.merge) implies q
        == c.side || q == c.idle by {
        lemma_only_preds(f, c.merge, q);
        let list = cfg::preds(f, c.merge);
        let i = choose|i: int| 0 <= i < list.len() && list[i] == q;
        let a = choose|a: int| 0 <= a < list.len() && list[a] == c.head;
        let b = choose|b: int| 0 <= b < list.len() && list[b] == c.side;
        assert(a != b);
    }
    assert forall|i: int|
        0 <= i < f.block(c.merge).insts.len() && i != c.phi_at implies !((#[trigger] f.block(
        c.merge,
    ).insts[i]).kind is Phi) by {
        assert(f.block(c.merge).insts[i].kind is Nop);
    }
}

proof fn lemma_short_converted(
    f: FuncView,
    c: ShortCircuit,
    incomings: Seq<(BlockId, ValueId)>,
    k: int,
)
    requires
        f.has_block(c.direct),
        f.values.len() + 4 <= usize::MAX,
    ensures
        if_convert::short_circuit_converted(f, c) == select_laws::converted(
            f,
            short_choice(f, c, incomings, k),
            short_kinds(f, c),
            short_types(f, c),
        ),
{
    let kinds = short_kinds(f, c);
    let types = short_types(f, c);
    reveal_with_fuel(select_laws::appended, 5);
    let rhs = f.next_value();
    let f1 = f.append(c.direct, f.inst(c.rhs_block, c.rhs_at as int).kind, Type::I1);
    assert(f1 == select_laws::appended(f, c.direct, kinds, types, 1));
    let (f2, lhs) = if_convert::with_condition(f1, c);
    let (g, combined) = if_convert::short_circuit_computed(f, c);
    assert(g == select_laws::appended(f, c.direct, kinds, types, kinds.len() as int));
    assert(combined == select_laws::chosen(f, kinds));
}

/// Boolean operations that may be computed anywhere give booleans.
proof fn lemma_boolean_result<D, M>(m: Meaning<D, M>, kind: KindView, data: Seq<D>, memory: M)
    requires
        m.has_booleans(),
        if_convert::speculatable(kind),
        data.len() == edit::operands(kind).len(),
    ensures
        m.is_boolean(m.result(kind, data, memory)),
{
    match kind {
        KindView::Unary { op, value } => {
            assert(data =~= seq![data[0]]);
            assert(m.of_one(kind, data[0], memory) == m.result(kind, data, memory));
        },
        KindView::Binary { op, lhs, rhs } => {
            assert(data =~= seq![data[0], data[1]]);
            assert(m.of_two(op, lhs, rhs, data[0], data[1], memory) == m.result(
                kind,
                data,
                memory,
            ));
        },
        KindView::ICompare { op, lhs, rhs } => {
            assert(m.is_boolean(m.result(KindView::ICompare { op, lhs, rhs }, data, memory)));
        },
        KindView::Cast { op, value } => {
            assert(m.is_boolean(
                m.result(KindView::Cast { op: CastOp::I32ToBool, value }, data, memory),
            ));
        },
        _ => {},
    }
}

/// One more operation.
proof fn lemma_one_more<D, M>(
    m: Meaning<D, M>,
    insts: Seq<InstView>,
    n: int,
    env: Map<ValueId, D>,
    memory: M,
    e: Map<ValueId, D>,
)
    requires
        m.computes_apart_from_memory(),
        0 < n <= insts.len(),
        semantics::is_plain(insts[n - 1].kind),
        insts[n - 1].result is Some,
        semantics::executed(m, insts, n - 1, env, memory) == (e, memory),
    ensures
        semantics::executed(m, insts, n, env, memory) == (
            e.insert(
                insts[n - 1].result->0,
                m.result(
                    insts[n - 1].kind,
                    edit::operands(insts[n - 1].kind).map_values(|v: ValueId| e[v]),
                    memory,
                ),
            ),
            memory,
        ),
{
    assert(semantics::is_plain(semantics::shape(insts[n - 1].kind)));
}

proof fn lemma_short_choice<D, M>(
    f: FuncView,
    m: Meaning<D, M>,
    sc: ShortCircuit,
    incomings: Seq<(BlockId, ValueId)>,
    k: int,
    env: Map<ValueId, D>,
    memory: M,
)
    requires
        m.computes_apart_from_memory(),
        m.has_booleans(),
        f.values.len() + 4 <= usize::MAX,
        sc.cond.0 < f.values.len(),
        if_convert::speculatable(f.inst(sc.rhs_block, sc.rhs_at as int).kind),
        env[incomings[k].1] == m.boolean(sc.constant),
    ensures
        ({
            let kinds = short_kinds(f, sc);
            let c = short_choice(f, sc, incomings, k);
            let (data, mem) = semantics::executed(
                m,
                select_laws::extra(f, kinds),
                kinds.len() as int,
                env,
                memory,
            );
            &&& mem == memory
            &&& data[select_laws::chosen(f, kinds)] == select_laws::choice(f, m, c, env, memory)
            &&& forall|v: ValueId|
                !(f.values.len() <= v.0 < f.values.len() + kinds.len()) ==> #[trigger] data[v]
                    == env[v]
        }),
{
    let kinds = short_kinds(f, sc);
    let c = short_choice(f, sc, incomings, k);
    let insts = select_laws::extra(f, kinds);
    let kind = f.inst(sc.rhs_block, sc.rhs_at as int).kind;
    let (op, negate) = if_convert::short_circuit_op(sc.direct_when_true, sc.constant);
    let rhs = select_laws::fresh(f, 0);
    let ops = edit::operands(kind).map_values(|v: ValueId| env[v]);
    let v0 = m.result(kind, ops, memory);
    lemma_boolean_result(m, kind, ops, memory);
    assert(insts[0] == (InstView { result: Some(rhs), kind }));
    assert(semantics::executed(m, insts, 0, env, memory) == (env, memory));
    lemma_one_more(m, insts, 1, env, memory, env);
    let e1 = env.insert(rhs, v0);
    if negate {
        let not = KindView::Unary { op: UnaryOp::Not, value: sc.cond };
        let lhs = select_laws::fresh(f, 1);
        lemma_one_more(m, insts, 2, env, memory, e1);
        assert(edit::operands(not).map_values(|v: ValueId| e1[v]) =~= seq![env[sc.cond]]);
        let v1 = m.of_one(not, env[sc.cond], memory);
        let e2 = e1.insert(lhs, v1);
        lemma_one_more(m, insts, 3, env, memory, e2);
        let last = KindView::Binary { op, lhs, rhs };
        assert(edit::operands(last).map_values(|v: ValueId| e2[v]) =~= seq![v1, v0]);
        assert(m.of_two(op, lhs, rhs, v1, v0, memory) == m.result(last, seq![v1, v0], memory));
    } else {
        lemma_one_more(m, insts, 2, env, memory, e1);
        let last = KindView::Binary { op, lhs: sc.cond, rhs };
        assert(edit::operands(last).map_values(|v: ValueId| e1[v]) =~= seq![env[sc.cond], v0]);
        assert(m.of_two(op, sc.cond, rhs, env[sc.cond], v0, memory) == m.result(
            last,
            seq![env[sc.cond], v0],
            memory,
        ));
    }
}

proof fn lemma_first_short_circuit(f: FuncView, m: int, rejected: Seq<(usize, usize)>) -> (r: BlockId)
    requires
        0 <= m,
        f.blocks.len() <= usize::MAX,
        if_convert::first_short_circuit(f, m, rejected) is Some,
    ensures
        f.has_block(r),
        if_convert::short_circuit_at(f, r, rejected) == if_convert::first_short_circuit(
            f,
            m,
            rejected,
        ),
    decreases f.blocks.len() - m,
{
    let id = BlockId(m as usize);
    if if_convert::short_circuit_at(f, id, rejected) is Some {
        id
    } else {
        lemma_first_short_circuit(f, m + 1, rejected)
    }
}

/// The numbers fit where there is room.
proof fn lemma_room_fits(f: FuncView, n: int)
    requires
        has_room(f, n),
        n >= 0,
    ensures
        threading_laws::fits(f),
{
    assert forall|b: BlockId| #[trigger] f.has_block(b) implies f.block(b).insts.len()
        <= usize::MAX by {
        assert(f.block(b).insts.len() + 4 * n <= usize::MAX);
    }
}

/// A constant entry of a boolean phi.
proof fn lemma_boolean_entry<D, M>(
    f: FuncView,
    m: Meaning<D, M>,
    b: BlockId,
    at: int,
    k: int,
    constant: bool,
    env: Map<ValueId, D>,
)
    requires
        f.wf(),
        well_typed(f),
        f.has_inst(b, at),
        f.inst(b, at).kind is Phi,
        f.inst(b, at).result matches Some(phi) && f.value(phi).ty == Type::I1,
        0 <= k < tail_merge::entries(f.inst(b, at)).len(),
        query::bool_of(f, tail_merge::entries(f.inst(b, at))[k].1) == Some(constant),
        meaning_laws::constants_kept(f, m, env),
    ensures
        env[tail_merge::entries(f.inst(b, at))[k].1] == m.boolean(constant),
{
    let inst = f.inst(b, at);
    query::lemma_inst_wf(f, b, at);
    assert(phi_typed(f, f.block(b).insts[at]));
    let u = tail_merge::entries(inst)[k].1;
    assert(u.0 < f.values.len());
    assert(f.has_value(u));
    assert(f.value(u).kind is Const);
}

proof fn lemma_short_converts<D, M>(
    f: FuncView,
    m: Meaning<D, M>,
    b: BlockId,
    rejected: Seq<(usize, usize)>,
    n: int,
) -> (c: Choice)
    requires
        verify::valid(f),
        has_room(f, n + 1),
        n >= 0,
        well_typed(f),
        select_laws::entered_once(f),
        m.computes_apart_from_memory(),
        m.has_booleans(),
        f.has_block(b),
        if_convert::short_circuit_at(f, b, rejected) is Some,
        verify::valid(
            if_convert::short_circuit_converted(
                f,
                if_convert::short_circuit_at(f, b, rejected)->0,
            ),
        ),
    ensures
        ({
            let sc = if_convert::short_circuit_at(f, b, rejected)->0;
            let g = if_convert::short_circuit_converted(f, sc);
            &&& select_laws::converts(f, g, m, c, short_kinds(f, sc))
            &&& select_laws::phi_and_choice_agree(f, g, c, short_kinds(f, sc))
            &&& well_typed(g)
            &&& has_room(g, n)
            &&& select_laws::entered_once(g)
        }),
{
    lemma_room_fits(f, n + 1);
    let at = query::active(f, b);
    lemma_single_operation(f, b);
    let sc = if_convert::short_circuit_at(f, b, rejected)->0;
    let inst = f.inst(b, at[0] as int);
    let incomings = tail_merge::entries(inst);
    let phi = inst.result->0;
    let k: int = if if_convert::short_circuit_entry(f, b, at[0], phi, incomings, 0) is Some {
        0
    } else {
        1
    };
    lemma_short_stands(f, b, at[0], phi, incomings, k);
    let c = short_choice(f, sc, incomings, k);
    let kinds = short_kinds(f, sc);
    let types = short_types(f, sc);
    let g = if_convert::short_circuit_converted(f, sc);
    assert(f.has_block(c.head)) by {
        reveal(select_laws::stands);
    }
    assert(f.block(c.head).insts.len() + 4 * (n + 1) <= usize::MAX);
    lemma_short_converted(f, sc, incomings, k);
    let kind = f.inst(sc.rhs_block, sc.rhs_at as int).kind;
    assert(semantics::is_plain(kind));
    assert forall|j: int| 0 <= j < kinds.len() implies semantics::is_plain(#[trigger] kinds[j]) by {
    }
    select_laws::lemma_converted(f, c, kinds, types);
    lemma_skips(f, c, kinds, types);
    lemma_kept(f, c, kinds, types, n);
    assert(kinds[0] == kind);
    assert(semantics::ignores(kinds[0], set![c.phi]));
    let reader = kinds[1];
    assert(semantics::ignores(kinds[1], set![c.phi]));
    assert(edit::operands(reader)[0] == c.cond);
    assert(c.cond != c.phi);
    query::lemma_inst_wf(f, b, at[0] as int);
    query::lemma_terminator_wf(f, c.head);
    assert(c.other.0 < f.values.len());
    assert(c.cond.0 < f.values.len());
    select_laws::lemma_constants_are_kept(f, c, kinds, c.other);
    lemma_inputs(f, c, kinds);
    assert(select_laws::compute_the_choice(f, m, c, kinds)) by {
        reveal(select_laws::compute_the_choice);
        assert forall|env: Map<ValueId, D>, memory: M|
            meaning_laws::constants_kept(f, m, env) implies ({
            let (data, mem) = #[trigger] semantics::executed(
                m,
                select_laws::extra(f, kinds),
                kinds.len() as int,
                env,
                memory,
            );
            &&& mem == memory
            &&& data[select_laws::chosen(f, kinds)] == select_laws::choice(f, m, c, env, memory)
            &&& forall|v: ValueId|
                !(f.values.len() <= v.0 < f.values.len() + kinds.len()) ==> #[trigger] data[v]
                    == env[v]
        }) by {
            lemma_boolean_entry(f, m, b, at[0] as int, k, sc.constant, env);
            lemma_short_choice(f, m, sc, incomings, k, env, memory);
        }
    }
    reveal(select_laws::converts);
    c
}

proof fn lemma_short_circuits<D, M>(
    f: FuncView,
    rejected: Seq<(usize, usize)>,
    attempts: int,
    changed: bool,
    m: Meaning<D, M>,
    args: Map<ValueId, D>,
    memory: M,
    out: State<D, M>,
)
    requires
        verify::valid(f),
        0 <= attempts <= if_convert::MAX_IF_CONVERSIONS,
        has_room(f, if_convert::MAX_IF_CONVERSIONS - attempts),
        well_typed(f),
        select_laws::entered_once(f),
        m.computes_apart_from_memory(),
        m.has_booleans(),
    ensures
        semantics::yields(
            if_convert::short_circuits(f, rejected, attempts, changed).0,
            m,
            args,
            memory,
            out,
        ) == semantics::yields(f, m, args, memory, out),
    decreases if_convert::MAX_IF_CONVERSIONS - attempts,
{
    if attempts < if_convert::MAX_IF_CONVERSIONS {
        if let Some(sc) = if_convert::first_short_circuit(f, 0, rejected) {
            let g = if_convert::short_circuit_converted(f, sc);
            let n = if_convert::MAX_IF_CONVERSIONS - attempts - 1;
            if verify::valid(g) {
                let b = lemma_first_short_circuit(f, 0, rejected);
                let c = lemma_short_converts(f, m, b, rejected, n);
                lemma_room_fits(f, n + 1);
                select_laws::lemma_conversion(
                    f,
                    g,
                    m,
                    c,
                    short_kinds(f, sc),
                    args,
                    memory,
                    out,
                );
                lemma_short_circuits(g, rejected, attempts + 1, true, m, args, memory, out);
            } else {
                lemma_less_room(f, n + 1);
                lemma_short_circuits(
                    f,
                    rejected.push((sc.merge.0, sc.phi_at)),
                    attempts + 1,
                    changed,
                    m,
                    args,
                    memory,
                    out,
                );
            }
        }
    }
}

proof fn lemma_less_room(f: FuncView, n: int)
    requires
        has_room(f, n),
    ensures
        has_room(f, n - 1),
{
    assert forall|b: BlockId| #[trigger] f.has_block(b) implies f.block(b).insts.len() + 4 * (n - 1)
        <= usize::MAX by {
        assert(f.block(b).insts.len() + 4 * n <= usize::MAX);
    }
}

/// Computing short-circuit booleans without a branch keeps what every call
/// returns, wherever the logical operations are what they are called. Nothing
/// may lead to the entry block, and phis must have the types of what they take.
pub proof fn short_circuiting_keeps_the_meaning<D, M>(
    f: FuncView,
    m: Meaning<D, M>,
    args: Map<ValueId, D>,
    memory: M,
    out: State<D, M>,
)
    requires
        verify::valid(f),
        has_room(f, if_convert::MAX_IF_CONVERSIONS as int),
        well_typed(f),
        select_laws::entered_once(f),
        m.computes_apart_from_memory(),
        m.has_booleans(),
    ensures
        semantics::yields(
            if_convert::short_circuits(f, Seq::empty(), 0, false).0,
            m,
            args,
            memory,
            out,
        ) == semantics::yields(f, m, args, memory, out),
{
    lemma_short_circuits(f, Seq::empty(), 0, false, m, args, memory, out);
}

// ---------------------------------------------------------------------------
// Conditional updates
// ---------------------------------------------------------------------------

/// The update as a choice.
pub open spec fn update_choice(f: FuncView, u: ConditionalUpdate, idle: BlockId) -> Choice {
    Choice {
        head: u.block,
        cond: u.cond,
        update_when_true: u.update_when_true,
        side: u.update_block,
        at: u.update_at as int,
        update: f.inst(u.update_block, u.update_at as int).result->0,
        idle,
        other: u.base,
        merge: u.merge,
        phi_at: u.phi_at as int,
        phi: u.phi,
    }
}

/// The new operations of an update.
pub open spec fn update_kinds(f: FuncView, u: ConditionalUpdate) -> Seq<KindView> {
    if u.update_when_true {
        seq![
            KindView::Cast { op: CastOp::BoolToI32, value: u.cond },
            KindView::Binary { op: BinaryOp::Imul, lhs: u.delta, rhs: select_laws::fresh(f, 0) },
            KindView::Binary { op: u.op, lhs: u.base, rhs: select_laws::fresh(f, 1) },
        ]
    } else {
        seq![
            KindView::Unary { op: UnaryOp::Not, value: u.cond },
            KindView::Cast { op: CastOp::BoolToI32, value: select_laws::fresh(f, 0) },
            KindView::Binary { op: BinaryOp::Imul, lhs: u.delta, rhs: select_laws::fresh(f, 1) },
            KindView::Binary { op: u.op, lhs: u.base, rhs: select_laws::fresh(f, 2) },
        ]
    }
}

pub open spec fn update_types(u: ConditionalUpdate) -> Seq<Type> {
    if u.update_when_true {
        seq![Type::I32, Type::I32, Type::I32]
    } else {
        seq![Type::I1, Type::I32, Type::I32, Type::I32]
    }
}

/// Only the listed predecessor leads to the block.
proof fn lemma_led_by(f: FuncView, b: BlockId, head: BlockId)
    requires
        f.blocks.len() <= usize::MAX,
        cfg::preds(f, b) == seq![head],
    ensures
        select_laws::led_by(f, b, head),
{
    assert forall|q: BlockId| f.has_block(q) && #[trigger] cfg::edge(f, q, b) implies q == head by {
        lemma_only_preds(f, b, q);
        let list = cfg::preds(f, b);
        let i = choose|i: int| 0 <= i < list.len() && list[i] == q;
        assert(i == 0);
    }
}

/// The arms of the branch.
proof fn lemma_update_shape(f: FuncView, b: BlockId)
    requires
        verify::valid(f),
        threading_laws::fits(f),
        f.has_block(b),
        f.terminator(b) matches Some(Terminator::Branch { cond, then_target, else_target })
            && then_target != else_target,
    ensures
        ({
            let (t, e) = match f.terminator(b) {
                Some(Terminator::Branch { cond, then_target, else_target }) => (
                    then_target,
                    else_target,
                ),
                _ => (b, b),
            };
            if_convert::update_shape(f, b, t, e) matches Some(s) ==> {
                let arm = if s.idle == b {
                    s.merge
                } else {
                    s.idle
                };
                &&& f.has_block(s.update_block)
                &&& f.has_block(s.idle)
                &&& f.has_block(s.merge)
                &&& s.update_block != b
                &&& s.update_block != s.merge
                &&& s.update_block != s.idle
                &&& s.idle != s.merge || s.idle == b
                &&& (t, e) == if s.update_when_true {
                    (s.update_block, arm)
                } else {
                    (arm, s.update_block)
                }
                &&& select_laws::led_by(f, s.update_block, b)
                &&& query::jump_of(f, s.update_block) == Some(s.merge)
                &&& query::active(f, s.update_block).len() == 1
                &&& s.update_at == query::active(f, s.update_block)[0]
                &&& s.idle != b ==> select_laws::led_by(f, s.idle, b) && query::all_nops(
                    f.block(s.idle).insts,
                ) && query::jump_of(f, s.idle) == Some(s.merge)
            }
        }),
{
    let (t, e) = match f.terminator(b) {
        Some(Terminator::Branch { cond, then_target, else_target }) => (then_target, else_target),
        _ => (b, b),
    };
    query::lemma_terminator_wf(f, b);
    if let Some(s) = if_convert::update_shape(f, b, t, e) {
        if query::jump_of(f, t) == Some(e) {
            lemma_led_by(f, t, b);
        } else if query::jump_of(f, e) == Some(t) {
            lemma_led_by(f, e, b);
        } else {
            lemma_led_by(f, t, b);
            lemma_led_by(f, e, b);
            query::lemma_terminator_wf(f, t);
            meaning_laws::lemma_targets(f, t);
            meaning_laws::lemma_targets(f, e);
            assert(cfg::edge(f, t, s.merge));
            assert(cfg::edge(f, e, s.merge));
            if query::active(f, e).len() == 0 {
                lemma_no_operation(f, e);
            }
            if query::active(f, t).len() == 0 {
                lemma_no_operation(f, t);
            }
        }
    }
}

proof fn lemma_no_operation(f: FuncView, b: BlockId)
    requires
        threading_laws::fits(f),
        f.has_block(b),
        query::active(f, b).len() == 0,
    ensures
        query::all_nops(f.block(b).insts),
{
    let insts = f.block(b).insts;
    assert(f.has_block(b));
    assert forall|i: int| 0 <= i < insts.len() implies (#[trigger] insts[i]).kind is Nop by {
        if !(insts[i].kind is Nop) {
            threading_laws::lemma_active_complete(insts, insts.len() as int, i);
        }
    }
}

/// A phi with two entries names the only two predecessors.
proof fn lemma_two_preds(
    f: FuncView,
    b: BlockId,
    i: int,
    x: BlockId,
    y: BlockId,
    q: BlockId,
)
    requires
        verify::valid(f),
        f.blocks.len() <= usize::MAX,
        f.has_inst(b, i),
        f.inst(b, i).kind is Phi,
        tail_merge::entries(f.inst(b, i)).len() == 2,
        util::incoming_from(tail_merge::entries(f.inst(b, i)), x) is Some,
        util::incoming_from(tail_merge::entries(f.inst(b, i)), y) is Some,
        x != y,
        f.has_block(q),
        cfg::edge(f, q, b),
    ensures
        q == x || q == y,
{
    let incomings = tail_merge::entries(f.inst(b, i));
    assert(f.has_block(b));
    assert(verify::block_valid(f, b));
    assert(verify::inst_valid(f, b, i));
    query::lemma_inst_wf(f, b, i);
    threading_laws::lemma_phi_names(f, incomings, b, q);
    let k = choose|k: int| 0 <= k < incomings.len() && (#[trigger] incomings[k]).0 == q;
    threading_laws::lemma_incoming_entry(incomings, x);
    threading_laws::lemma_incoming_entry(incomings, y);
    let vx = util::incoming_from(incomings, x)->0;
    let vy = util::incoming_from(incomings, y)->0;
    let i1 = choose|j: int| 0 <= j < incomings.len() && #[trigger] incomings[j] == (x, vx);
    let i2 = choose|j: int| 0 <= j < incomings.len() && #[trigger] incomings[j] == (y, vy);
    assert(i1 != i2);
}

proof fn lemma_update_stands(f: FuncView, b: BlockId, rejected: Seq<(usize, usize)>) -> (c: Choice)
    requires
        verify::valid(f),
        threading_laws::fits(f),
        f.has_block(b),
        if_convert::update_at_block(f, b, rejected) is Some,
    ensures
        ({
            let u = if_convert::update_at_block(f, b, rejected)->0;
            &&& c == update_choice(f, u, c.idle)
            &&& select_laws::stands(f, c)
            &&& f.inst(u.update_block, u.update_at as int).kind == (KindView::Binary {
                op: u.op,
                lhs: u.base,
                rhs: u.delta,
            })
            &&& u.op == BinaryOp::Iadd || u.op == BinaryOp::Isub
            &&& f.value(u.base).ty == Type::I32
        }),
{
    reveal(select_laws::stands);
    let u = if_convert::update_at_block(f, b, rejected)->0;
    let (t, e) = match f.terminator(b) {
        Some(Terminator::Branch { cond, then_target, else_target }) => (then_target, else_target),
        _ => (b, b),
    };
    lemma_update_shape(f, b);
    let s = if_convert::update_shape(f, b, t, e)->0;
    let c = update_choice(f, u, s.idle);
    lemma_single_operation(f, s.update_block);
    let insts = f.block(s.merge).insts;
    let phis = query::leading_from(insts, 0);
    assert(f.has_block(s.merge));
    query::lemma_leading_from(insts, 0);
    assert(insts[phis[0] as int].kind is Phi);
    assert forall|i: int| 0 <= i < insts.len() && i != c.phi_at implies !((
    #[trigger] insts[i]).kind is Phi) by {
        if insts[i].kind is Phi {
            assert(verify::block_valid(f, s.merge));
            assert(verify::inst_valid(f, s.merge, i));
            tail_laws::lemma_leading_complete(insts, 0, i);
            let k = choose|k: int| 0 <= k < phis.len() && phis[k] == i as usize;
            assert(k == 0);
        }
    }
    assert forall|q: BlockId| f.has_block(q) && #[trigger] cfg::edge(f, q, c.merge) implies q
        == c.side || q == c.idle by {
        lemma_two_preds(f, c.merge, c.phi_at, c.side, c.idle, q);
    }
    c
}

proof fn lemma_update_converted(f: FuncView, u: ConditionalUpdate, idle: BlockId)
    requires
        f.has_block(u.block),
        f.values.len() + 4 <= usize::MAX,
    ensures
        if_convert::update_converted(f, u) == select_laws::converted(
            f,
            update_choice(f, u, idle),
            update_kinds(f, u),
            update_types(u),
        ),
{
    let kinds = update_kinds(f, u);
    let types = update_types(u);
    reveal_with_fuel(select_laws::appended, 6);
    let (f1, selector) = if_convert::with_selector(f, u);
    let (g, selected) = if_convert::update_computed(f, u);
    let n = kinds.len() as int;
    assert(f1 == select_laws::appended(f, u.block, kinds, types, n - 3));
    assert(g == select_laws::appended(f, u.block, kinds, types, n));
    assert(selected == select_laws::chosen(f, kinds));
}

proof fn lemma_update_choice<D, M>(
    f: FuncView,
    m: Meaning<D, M>,
    u: ConditionalUpdate,
    idle: BlockId,
    env: Map<ValueId, D>,
    memory: M,
)
    requires
        m.computes_apart_from_memory(),
        m.has_booleans(),
        m.has_integers(),
        f.values.len() + 4 <= usize::MAX,
        u.cond.0 < f.values.len(),
        u.base.0 < f.values.len(),
        u.delta.0 < f.values.len(),
        f.inst(u.update_block, u.update_at as int).kind == (KindView::Binary {
            op: u.op,
            lhs: u.base,
            rhs: u.delta,
        }),
        u.op == BinaryOp::Iadd || u.op == BinaryOp::Isub,
    ensures
        ({
            let kinds = update_kinds(f, u);
            let c = update_choice(f, u, idle);
            let (data, mem) = semantics::executed(
                m,
                select_laws::extra(f, kinds),
                kinds.len() as int,
                env,
                memory,
            );
            &&& mem == memory
            &&& data[select_laws::chosen(f, kinds)] == select_laws::choice(f, m, c, env, memory)
            &&& forall|v: ValueId|
                !(f.values.len() <= v.0 < f.values.len() + kinds.len()) ==> #[trigger] data[v]
                    == env[v]
        }),
{
    let kinds = update_kinds(f, u);
    let insts = select_laws::extra(f, kinds);
    let n = kinds.len() as int;
    let cond = env[u.cond];
    let base = env[u.base];
    let delta = env[u.delta];
    assert(semantics::executed(m, insts, 0, env, memory) == (env, memory));
    let not = KindView::Unary { op: UnaryOp::Not, value: u.cond };
    // The selector, in front of the last three operations.
    let chosen_when = (m.truth)(cond) == u.update_when_true;
    let (e, sel) = if u.update_when_true {
        (env, cond)
    } else {
        lemma_one_more(m, insts, 1, env, memory, env);
        assert(edit::operands(not).map_values(|v: ValueId| env[v]) =~= seq![cond]);
        let v = m.of_one(not, cond, memory);
        (env.insert(select_laws::fresh(f, 0), v), v)
    };
    assert((m.truth)(sel) == chosen_when);
    assert(semantics::executed(m, insts, n - 3, env, memory) == (e, memory));
    let cast = kinds[n - 3];
    lemma_one_more(m, insts, n - 2, env, memory, e);
    assert(edit::operands(cast).map_values(|v: ValueId| e[v]) =~= seq![sel]);
    let number = m.of_one(cast, sel, memory);
    let e1 = e.insert(select_laws::fresh(f, n - 3), number);
    let scale = kinds[n - 2];
    lemma_one_more(m, insts, n - 1, env, memory, e1);
    assert(edit::operands(scale).map_values(|v: ValueId| e1[v]) =~= seq![delta, number]);
    let scaled = m.of_two(
        BinaryOp::Imul,
        u.delta,
        select_laws::fresh(f, n - 3),
        delta,
        number,
        memory,
    );
    let e2 = e1.insert(select_laws::fresh(f, n - 2), scaled);
    let last = kinds[n - 1];
    lemma_one_more(m, insts, n, env, memory, e2);
    assert(edit::operands(last).map_values(|v: ValueId| e2[v]) =~= seq![base, scaled]);
    let val = m.of_two(u.op, u.base, select_laws::fresh(f, n - 2), base, scaled, memory);
    let own = KindView::Binary { op: u.op, lhs: u.base, rhs: u.delta };
    assert(edit::operands(own).map_values(|v: ValueId| env[v]) =~= seq![base, delta]);
    assert(semantics::shape(own) == semantics::shape(last));
    if chosen_when {
        assert(scaled == delta);
    } else {
        assert(scaled == m.integer(0));
        assert(val == base);
    }
}

proof fn lemma_first_update(f: FuncView, b: int, rejected: Seq<(usize, usize)>) -> (r: BlockId)
    requires
        0 <= b,
        f.blocks.len() <= usize::MAX,
        if_convert::first_update(f, b, rejected) is Some,
    ensures
        f.has_block(r),
        if_convert::update_at_block(f, r, rejected) == if_convert::first_update(f, b, rejected),
    decreases f.blocks.len() - b,
{
    let id = BlockId(b as usize);
    if if_convert::update_at_block(f, id, rejected) is Some {
        id
    } else {
        lemma_first_update(f, b + 1, rejected)
    }
}

proof fn lemma_update_converts<D, M>(
    f: FuncView,
    m: Meaning<D, M>,
    b: BlockId,
    rejected: Seq<(usize, usize)>,
    n: int,
) -> (c: Choice)
    requires
        verify::valid(f),
        has_room(f, n + 1),
        n >= 0,
        well_typed(f),
        select_laws::entered_once(f),
        m.computes_apart_from_memory(),
        m.has_booleans(),
        m.has_integers(),
        f.has_block(b),
        if_convert::update_at_block(f, b, rejected) is Some,
        verify::valid(
            if_convert::update_converted(f, if_convert::update_at_block(f, b, rejected)->0),
        ),
    ensures
        ({
            let u = if_convert::update_at_block(f, b, rejected)->0;
            let g = if_convert::update_converted(f, u);
            &&& select_laws::converts(f, g, m, c, update_kinds(f, u))
            &&& select_laws::phi_and_choice_agree(f, g, c, update_kinds(f, u))
            &&& well_typed(g)
            &&& has_room(g, n)
            &&& select_laws::entered_once(g)
        }),
{
    lemma_room_fits(f, n + 1);
    let u = if_convert::update_at_block(f, b, rejected)->0;
    let g = if_convert::update_converted(f, u);
    let c = lemma_update_stands(f, b, rejected);
    let kinds = update_kinds(f, u);
    let types = update_types(u);
    let k = kinds.len() as int;
    assert(f.has_block(c.head) && f.has_block(c.merge) && f.has_inst(c.merge, c.phi_at)
        && f.has_inst(c.side, c.at)) by {
        reveal(select_laws::stands);
    }
    assert(f.block(c.head).insts.len() + 4 * (n + 1) <= usize::MAX);
    lemma_update_converted(f, u, c.idle);
    let phi = f.inst(c.merge, c.phi_at);
    let incomings = tail_merge::entries(phi);
    assert(types.last() == f.value(c.phi).ty) by {
        reveal(select_laws::stands);
        threading_laws::lemma_incoming_entry(incomings, c.idle);
        let j = choose|j: int|
            0 <= j < incomings.len() && #[trigger] incomings[j] == (c.idle, c.other);
        assert(phi_typed(f, f.block(c.merge).insts[c.phi_at]));
        assert(f.value(incomings[j].1).ty == f.value(c.phi).ty);
    }
    assert forall|j: int| 0 <= j < kinds.len() implies semantics::is_plain(#[trigger] kinds[j]) by {
    }
    select_laws::lemma_converted(f, c, kinds, types);
    lemma_skips(f, c, kinds, types);
    lemma_kept(f, c, kinds, types, n);
    query::lemma_inst_wf(f, c.side, c.at);
    query::lemma_terminator_wf(f, c.head);
    let own = f.inst(c.side, c.at).kind;
    assert(u.base.0 < f.values.len() && u.delta.0 < f.values.len());
    assert(u.cond.0 < f.values.len()) by {
        reveal(select_laws::stands);
    }
    assert(semantics::ignores(kinds[0], set![c.phi]));
    assert(semantics::ignores(kinds[k - 1], set![c.phi]));
    assert(semantics::ignores(kinds[k - 2], set![c.phi]));
    assert(edit::operands(kinds[0])[0] == u.cond);
    assert(edit::operands(kinds[k - 1])[0] == u.base);
    assert(edit::operands(kinds[k - 2])[0] == u.delta);
    assert(u.cond != c.phi && u.base != c.phi && u.delta != c.phi);
    assert(semantics::ignores(own, set![c.phi])) by {
        let list = edit::operands(own);
        assert(list =~= seq![u.base, u.delta]);
    }
    assert(c.side != c.merge) by {
        reveal(select_laws::stands);
    }
    select_laws::lemma_update_read(f, c, c.side, c.at);
    assert(edit::operands(f.block(c.side).insts[c.at].kind)[0] == u.base);
    lemma_inputs(f, c, kinds);
    assert(select_laws::compute_the_choice(f, m, c, kinds)) by {
        reveal(select_laws::compute_the_choice);
        assert forall|env: Map<ValueId, D>, memory: M|
            meaning_laws::constants_kept(f, m, env) implies ({
            let (data, mem) = #[trigger] semantics::executed(
                m,
                select_laws::extra(f, kinds),
                kinds.len() as int,
                env,
                memory,
            );
            &&& mem == memory
            &&& data[select_laws::chosen(f, kinds)] == select_laws::choice(f, m, c, env, memory)
            &&& forall|v: ValueId|
                !(f.values.len() <= v.0 < f.values.len() + kinds.len()) ==> #[trigger] data[v]
                    == env[v]
        }) by {
            lemma_update_choice(f, m, u, c.idle, env, memory);
        }
    }
    reveal(select_laws::converts);
    c
}

proof fn lemma_updates<D, M>(
    f: FuncView,
    rejected: Seq<(usize, usize)>,
    attempts: int,
    changed: bool,
    m: Meaning<D, M>,
    args: Map<ValueId, D>,
    memory: M,
    out: State<D, M>,
)
    requires
        verify::valid(f),
        0 <= attempts <= if_convert::MAX_IF_CONVERSIONS,
        has_room(f, if_convert::MAX_IF_CONVERSIONS - attempts),
        well_typed(f),
        select_laws::entered_once(f),
        m.computes_apart_from_memory(),
        m.has_booleans(),
        m.has_integers(),
    ensures
        semantics::yields(
            if_convert::updates(f, rejected, attempts, changed).0,
            m,
            args,
            memory,
            out,
        ) == semantics::yields(f, m, args, memory, out),
    decreases if_convert::MAX_IF_CONVERSIONS - attempts,
{
    if attempts < if_convert::MAX_IF_CONVERSIONS {
        if let Some(u) = if_convert::first_update(f, 0, rejected) {
            let g = if_convert::update_converted(f, u);
            let n = if_convert::MAX_IF_CONVERSIONS - attempts - 1;
            if verify::valid(g) {
                let b = lemma_first_update(f, 0, rejected);
                let c = lemma_update_converts(f, m, b, rejected, n);
                lemma_room_fits(f, n + 1);
                select_laws::lemma_conversion(
                    f,
                    g,
                    m,
                    c,
                    update_kinds(f, u),
                    args,
                    memory,
                    out,
                );
                lemma_updates(g, rejected, attempts + 1, true, m, args, memory, out);
            } else {
                lemma_less_room(f, n + 1);
                lemma_updates(
                    f,
                    rejected.push((u.block.0, u.phi_at)),
                    attempts + 1,
                    changed,
                    m,
                    args,
                    memory,
                    out,
                );
            }
        }
    }
}

/// Computing conditional updates without a branch keeps what every call
/// returns, wherever booleans count as one and zero. Nothing may lead to the
/// entry block, and phis must have the types of what they take.
pub proof fn updating_keeps_the_meaning<D, M>(
    f: FuncView,
    m: Meaning<D, M>,
    args: Map<ValueId, D>,
    memory: M,
    out: State<D, M>,
)
    requires
        verify::valid(f),
        has_room(f, if_convert::MAX_IF_CONVERSIONS as int),
        well_typed(f),
        select_laws::entered_once(f),
        m.computes_apart_from_memory(),
        m.has_booleans(),
        m.has_integers(),
    ensures
        semantics::yields(
            if_convert::updates(f, Seq::empty(), 0, false).0,
            m,
            args,
            memory,
            out,
        ) == semantics::yields(f, m, args, memory, out),
{
    lemma_updates(f, Seq::empty(), 0, false, m, args, memory, out);
}

} // verus!
