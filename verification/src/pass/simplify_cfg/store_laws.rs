//! Storing a boolean without a branch keeps what a function computes.
use vstd::prelude::*;

use crate::cfg;
use crate::edit;
use crate::ir::{
    BinaryOp, BlockId, CastOp, Const, FuncView, InstView, KindView, Terminator, Type, UnaryOp,
    ValueId, ValueKindView,
};
use crate::pass::range_integer::laws as integer_laws;
use crate::pass::simplify_cfg::boolean_stores;
use crate::pass::simplify_cfg::boolean_stores::{StoreArmView, StoreDiamondView, StoreValue};
use crate::pass::simplify_cfg::if_convert;
use crate::pass::simplify_cfg::meaning_laws;
use crate::pass::simplify_cfg::meaning_laws::constants_kept;
use crate::pass::simplify_cfg::select_laws;
use crate::pass::simplify_cfg::select_laws::entered_once;
use crate::pass::simplify_cfg::threading_laws;
use crate::pass::simplify_cfg::threading_laws::{fits, next_block};
use crate::query;
use crate::rewriting::side_by_side;
use crate::semantics;
use crate::semantics::{Meaning, State};
use crate::ssa;
use crate::util;
use crate::verify;

verus! {

// ---------------------------------------------------------------------------
// The steps that compute the boolean of an arm
// ---------------------------------------------------------------------------

/// The value is there at the end of `head`, and not from `block`.
pub open spec fn is_outer(f: FuncView, block: BlockId, head: BlockId, o: ValueId) -> bool {
    &&& f.has_value(o)
    &&& verify::defined(f, o)
    &&& query::available_at(f, o, head)
    &&& f.value(o).kind matches ValueKindView::Inst(owner, _) ==> owner != block
}

/// The value is one of the first `k` steps, or from outside.
pub open spec fn comes_from(
    f: FuncView,
    block: BlockId,
    head: BlockId,
    steps: Seq<(usize, ValueId, KindView)>,
    k: int,
    o: ValueId,
) -> bool {
    (exists|i: int| 0 <= i < k && (#[trigger] steps[i]).1 == o) || is_outer(f, block, head, o)
}

/// The step is an operation of the block, on earlier steps and values from
/// outside.
pub open spec fn step_stands(
    f: FuncView,
    block: BlockId,
    head: BlockId,
    steps: Seq<(usize, ValueId, KindView)>,
    k: int,
) -> bool {
    let (at, v, kind) = steps[k];
    &&& f.has_inst(block, at as int)
    &&& f.inst(block, at as int).result == Some(v)
    &&& f.inst(block, at as int).kind == kind
    &&& if_convert::speculatable(kind)
    &&& forall|j: int|
        0 <= j < edit::operands(kind).len() ==> comes_from(
            f,
            block,
            head,
            steps,
            k,
            #[trigger] edit::operands(kind)[j],
        )
}

pub open spec fn steps_stand(
    f: FuncView,
    block: BlockId,
    head: BlockId,
    steps: Seq<(usize, ValueId, KindView)>,
) -> bool {
    forall|k: int| 0 <= k < steps.len() ==> #[trigger] step_stands(f, block, head, steps, k)
}

pub open spec fn is_prefix(
    a: Seq<(usize, ValueId, KindView)>,
    b: Seq<(usize, ValueId, KindView)>,
) -> bool {
    a.len() <= b.len() && forall|k: int| 0 <= k < a.len() ==> #[trigger] b[k] == a[k]
}

proof fn lemma_more_steps(
    f: FuncView,
    block: BlockId,
    head: BlockId,
    a: Seq<(usize, ValueId, KindView)>,
    b: Seq<(usize, ValueId, KindView)>,
    k: int,
    n: int,
    o: ValueId,
)
    requires
        is_prefix(a, b),
        0 <= k <= a.len(),
        k <= n,
        comes_from(f, block, head, a, k, o),
    ensures
        comes_from(f, block, head, b, n, o),
{
    if !is_outer(f, block, head, o) {
        let i = choose|i: int| 0 <= i < k && (#[trigger] a[i]).1 == o;
        assert(b[i] == a[i]);
    }
}

proof fn lemma_step_added(
    f: FuncView,
    block: BlockId,
    head: BlockId,
    steps: Seq<(usize, ValueId, KindView)>,
    step: (usize, ValueId, KindView),
)
    requires
        steps_stand(f, block, head, steps),
        step_stands(f, block, head, steps.push(step), steps.len() as int),
    ensures
        steps_stand(f, block, head, steps.push(step)),
{
    let more = steps.push(step);
    assert(is_prefix(steps, more));
    assert forall|k: int| 0 <= k < more.len() implies #[trigger] step_stands(
        f,
        block,
        head,
        more,
        k,
    ) by {
        if k < steps.len() {
            assert(step_stands(f, block, head, steps, k));
            assert(more[k] == steps[k]);
            let kind = steps[k].2;
            assert forall|j: int| 0 <= j < edit::operands(kind).len() implies comes_from(
                f,
                block,
                head,
                more,
                k,
                #[trigger] edit::operands(kind)[j],
            ) by {
                lemma_more_steps(f, block, head, steps, more, k, k, edit::operands(kind)[j]);
            }
        }
    }
}

proof fn lemma_collect(
    f: FuncView,
    block: BlockId,
    head: BlockId,
    v: ValueId,
    path: Seq<ValueId>,
    steps: Seq<(usize, ValueId, KindView)>,
)
    requires
        verify::valid(f),
        f.has_value(v),
        verify::defined(f, v),
        f.has_block(block),
        steps_stand(f, block, head, steps),
    ensures
        boolean_stores::collect(f, block, head, v, path, steps) matches Some(out) ==> is_prefix(
            steps,
            out,
        ) && steps_stand(f, block, head, out) && comes_from(
            f,
            block,
            head,
            out,
            out.len() as int,
            v,
        ),
    decreases f.values.len() + 1 - path.len(),
{
    if let Some(out) = boolean_stores::collect(f, block, head, v, path, steps) {
        if let ValueKindView::Inst(def_block, at) = f.value(v).kind {
            if def_block == block {
                if boolean_stores::collected(steps, v) {
                    let i = choose|i: int| 0 <= i < steps.len() && (#[trigger] steps[i]).1 == v;
                    assert(steps[i].1 == v);
                } else {
                    let inst = f.inst(block, at as int);
                    let reads = edit::operands(inst.kind);
                    query::lemma_inst_wf(f, block, at as int);
                    assert(verify::block_valid(f, block));
                    assert(verify::inst_valid(f, block, at as int));
                    assert(verify::available(f, reads[0], block, at as int));
                    if reads.len() >= 2 {
                        assert(verify::available(f, reads[1], block, at as int));
                    }
                    lemma_collect(f, block, head, reads[0], path.push(v), steps);
                    let first = boolean_stores::collect(
                        f,
                        block,
                        head,
                        reads[0],
                        path.push(v),
                        steps,
                    )->Some_0;
                    let step = (at, v, inst.kind);
                    let all = if reads.len() < 2 {
                        first
                    } else {
                        lemma_collect(f, block, head, reads[1], path.push(v), first);
                        boolean_stores::collect(
                            f,
                            block,
                            head,
                            reads[1],
                            path.push(v),
                            first,
                        )->Some_0
                    };
                    assert(out == all.push(step));
                    assert(is_prefix(first, all));
                    assert(is_prefix(steps, all)) by {
                        assert forall|k: int| 0 <= k < steps.len() implies #[trigger] all[k]
                            == steps[k] by {
                            assert(first[k] == steps[k]);
                            assert(all[k] == first[k]);
                        }
                    }
                    let n = all.len() as int;
                    assert(is_prefix(first, out)) by {
                        assert forall|k: int| 0 <= k < first.len() implies #[trigger] out[k]
                            == first[k] by {
                            assert(all[k] == first[k]);
                        }
                    }
                    assert(is_prefix(all, out));
                    lemma_more_steps(f, block, head, first, out, first.len() as int, n, reads[0]);
                    if reads.len() >= 2 {
                        lemma_more_steps(f, block, head, all, out, n, n, reads[1]);
                    }
                    assert(step_stands(f, block, head, out, n));
                    lemma_step_added(f, block, head, all, step);
                    assert(out[n].1 == v);
                    assert(is_prefix(steps, out)) by {
                        assert forall|k: int| 0 <= k < steps.len() implies #[trigger] out[k]
                            == steps[k] by {
                            assert(all[k] == steps[k]);
                        }
                    }
                }
            }
        }
    }
}

// ---------------------------------------------------------------------------
// The arm
// ---------------------------------------------------------------------------

/// The value that the arm stores.
pub open spec fn stored_in(f: FuncView, a: StoreArmView) -> ValueId {
    match f.inst(a.block, a.store_at as int).kind {
        KindView::Store { ptr, value } => value,
        _ => a.pointer,
    }
}

/// The arm computes a boolean and an address and stores the boolean there.
pub open spec fn arm_stands(f: FuncView, a: StoreArmView, head: BlockId) -> bool {
    let w = stored_in(f, a);
    &&& f.has_block(a.block)
    &&& f.terminator(a.block) == Some(Terminator::Jump(a.merge))
    &&& f.has_inst(a.block, a.store_at as int)
    &&& f.inst(a.block, a.store_at as int).kind == (KindView::Store { ptr: a.pointer, value: w })
    &&& forall|i: int|
        f.has_inst(a.block, i) && i != a.store_at ==> (#[trigger] f.inst(a.block, i)).kind is Nop
            || (semantics::is_plain(f.inst(a.block, i).kind) && i < a.store_at)
    &&& steps_stand(f, a.block, head, a.value_insts)
    &&& match a.value {
        StoreValue::Constant(c) => query::int_of(f, w) == Some(
            if c {
                1i32
            } else {
                0i32
            },
        ),
        StoreValue::Dynamic(s) => util::def_kind(f, w) == Some(
            KindView::Cast { op: CastOp::BoolToI32, value: s },
        ) && comes_from(
            f,
            a.block,
            head,
            a.value_insts,
            a.value_insts.len() as int,
            s,
        ),
    }
    &&& match a.gep {
        Some((at, kind)) => f.value(a.pointer).kind == ValueKindView::Inst(a.block, at)
            && util::def_kind(f, a.pointer) == Some(kind) && kind is Gep,
        None => util::def_block(f, a.pointer) != Some(a.block),
    }
}

proof fn lemma_active_ascending(insts: Seq<InstView>, n: int, k: int)
    requires
        0 <= n <= insts.len() <= usize::MAX,
        0 <= k < query::active_below(insts, n).len(),
    ensures
        query::active_below(insts, n)[k] <= query::active_below(insts, n).last(),
        query::active_below(insts, n).last() < n,
    decreases n,
{
    if n > 0 {
        let before = query::active_below(insts, n - 1);
        if insts[n - 1].kind is Nop {
            lemma_active_ascending(insts, n - 1, k);
        } else if k < before.len() {
            lemma_active_ascending(insts, n - 1, k);
            assert(query::active_below(insts, n)[k] == before[k]);
        }
    }
}

proof fn lemma_arm_stands(f: FuncView, block: BlockId, head: BlockId)
    requires
        verify::valid(f),
        fits(f),
        f.has_block(block),
        boolean_stores::store_arm(f, block, head) is Some,
    ensures
        arm_stands(f, boolean_stores::store_arm(f, block, head)->Some_0, head),
        boolean_stores::store_arm(f, block, head)->Some_0.block == block,
{
    let a = boolean_stores::store_arm(f, block, head)->Some_0;
    let insts = f.block(block).insts;
    let n = insts.len() as int;
    let at = query::active(f, block);
    let w = stored_in(f, a);
    query::lemma_active_below(insts, n);
    lemma_active_ascending(insts, n, at.len() - 1);
    assert(at[at.len() - 1] == a.store_at);
    query::lemma_inst_wf(f, block, a.store_at as int);
    let (value, steps, cast_at) = boolean_stores::stored_value(f, block, head, w)->Some_0;
    if query::int_of(f, w) is None {
        let place = query::place_in(f, block, w)->Some_0;
        query::lemma_inst_wf(f, block, place as int);
        if let KindView::Cast { op, value: source } = f.inst(block, place as int).kind {
            assert(verify::block_valid(f, block));
            assert(verify::inst_valid(f, block, place as int));
            let reads = edit::operands(f.inst(block, place as int).kind);
            assert(reads[0] == source);
            assert(verify::available(f, reads[0], block, place as int));
            lemma_collect(f, block, head, source, Seq::empty(), Seq::empty());
        }
    }
    assert(steps_stand(f, block, head, a.value_insts));
    assert forall|i: int| f.has_inst(block, i) && i != a.store_at implies (
    #[trigger] f.inst(block, i)).kind is Nop || (semantics::is_plain(f.inst(block, i).kind) && i
        < a.store_at) by {
        if !(f.inst(block, i).kind is Nop) {
            threading_laws::lemma_active_complete(insts, n, i);
            let k = choose|k: int| 0 <= k < at.len() && at[k] == i as usize;
            lemma_active_ascending(insts, n, k);
            assert(boolean_stores::consumed(a.store_at, a.gep, a.value_insts, a.value_cast_at, at[k]));
            if exists|j: int|
                0 <= j < a.value_insts.len() && (#[trigger] a.value_insts[j]).0 == i as usize {
                let j = choose|j: int|
                    0 <= j < a.value_insts.len() && (#[trigger] a.value_insts[j]).0 == i as usize;
                assert(step_stands(f, block, head, a.value_insts, j));
            }
        }
    }
}

/// What is not defined in a block is not changed by it.
pub proof fn lemma_block_leaves<D, M>(
    f: FuncView,
    m: Meaning<D, M>,
    b: BlockId,
    n: int,
    env: Map<ValueId, D>,
    memory: M,
    v: ValueId,
)
    requires
        verify::valid(f),
        f.has_block(b),
        0 <= n <= f.block(b).insts.len(),
        !(f.value(v).kind matches ValueKindView::Inst(owner, _) && owner == b),
    ensures
        semantics::executed(m, f.block(b).insts, n, env, memory).0[v] == env[v],
    decreases n,
{
    if n > 0 {
        lemma_block_leaves(f, m, b, n - 1, env, memory, v);
        assert(verify::block_valid(f, b));
        assert(verify::inst_valid(f, b, n - 1));
    }
}

pub proof fn lemma_plain_memory<D, M>(
    m: Meaning<D, M>,
    insts: Seq<InstView>,
    n: int,
    env: Map<ValueId, D>,
    memory: M,
)
    requires
        m.computes_apart_from_memory(),
        0 <= n <= insts.len(),
        forall|i: int|
            0 <= i < n ==> (#[trigger] insts[i]).kind is Nop || semantics::is_plain(insts[i].kind),
    ensures
        semantics::executed(m, insts, n, env, memory).1 == memory,
    decreases n,
{
    if n > 0 {
        lemma_plain_memory(m, insts, n - 1, env, memory);
        assert(insts[n - 1].kind is Nop || semantics::is_plain(insts[n - 1].kind));
        ssa::lemma_shape_plain(insts[n - 1].kind);
    }
}

/// The memory after a store.
pub open spec fn after_store<D, M>(m: Meaning<D, M>, ptr: D, value: D, memory: M) -> M {
    (m.apply)(
        semantics::shape(KindView::Store { ptr: ValueId(0), value: ValueId(0) }),
        seq![ptr, value],
        memory,
    ).1
}

/// The data where the arm stores.
pub open spec fn at_store<D, M>(
    f: FuncView,
    m: Meaning<D, M>,
    a: StoreArmView,
    env: Map<ValueId, D>,
    memory: M,
) -> Map<ValueId, D> {
    semantics::executed(m, f.block(a.block).insts, a.store_at as int, env, memory).0
}

/// What an arm does.
proof fn lemma_arm_run<D, M>(
    f: FuncView,
    m: Meaning<D, M>,
    a: StoreArmView,
    head: BlockId,
    env: Map<ValueId, D>,
    memory: M,
)
    requires
        verify::valid(f),
        fits(f),
        entered_once(f),
        m.computes_apart_from_memory(),
        arm_stands(f, a, head),
        cfg::reachable(f, a.block),
        ssa::knows(f, m, a.block, 0, env),
    ensures
        ({
            let e = at_store(f, m, a, env, memory);
            let n = f.block(a.block).insts.len() as int;
            &&& ssa::knows(f, m, a.block, a.store_at as int, e)
            &&& semantics::executed(m, f.block(a.block).insts, n, env, memory).1 == after_store(
                m,
                e[a.pointer],
                e[stored_in(f, a)],
                memory,
            )
            &&& forall|o: ValueId|
                !(f.value(o).kind matches ValueKindView::Inst(owner, _) && owner == a.block)
                    ==> #[trigger] e[o] == env[o]
        }),
{
    let insts = f.block(a.block).insts;
    let n = insts.len() as int;
    let k = a.store_at as int;
    let e = at_store(f, m, a, env, memory);
    ssa::lemma_known_at_end(f, m, a.block, k, env, memory);
    assert forall|i: int| 0 <= i < k implies (#[trigger] insts[i]).kind is Nop
        || semantics::is_plain(insts[i].kind) by {
        assert(f.has_inst(a.block, i));
        assert(f.inst(a.block, i) == insts[i]);
    }
    lemma_plain_memory(m, insts, k, env, memory);
    assert forall|i: int| k + 1 <= i < n implies (#[trigger] insts[i]).kind is Nop by {
        assert(f.has_inst(a.block, i));
        assert(f.inst(a.block, i) == insts[i]);
    }
    semantics::lemma_executed_to_the_end(m, insts, k + 1, n, env, memory);
    assert(insts[k] == f.inst(a.block, k));
    let kind = insts[k].kind;
    assert(edit::operands(kind).map_values(|v: ValueId| e[v]) =~= seq![
        e[a.pointer],
        e[stored_in(f, a)],
    ]);
    assert forall|o: ValueId|
        !(f.value(o).kind matches ValueKindView::Inst(owner, _) && owner == a.block) implies
        #[trigger] e[o] == env[o] by {
        lemma_block_leaves(f, m, a.block, k, env, memory, o);
    }
}

// ---------------------------------------------------------------------------
// What is appended to the head
// ---------------------------------------------------------------------------

/// Block `b` has been run.
pub open spec fn ran<D, M>(
    h: FuncView,
    m: Meaning<D, M>,
    b: BlockId,
    env: Map<ValueId, D>,
    memory: M,
) -> (Map<ValueId, D>, M) {
    semantics::executed(m, h.block(b).insts, h.block(b).insts.len() as int, env, memory)
}

/// Block `b` of `h` does what it does in `f`, and computes new values besides.
pub open spec fn adds<D, M>(
    f: FuncView,
    h: FuncView,
    m: Meaning<D, M>,
    b: BlockId,
    env: Map<ValueId, D>,
    memory: M,
) -> bool {
    &&& f.has_block(b)
    &&& h == (FuncView { blocks: h.blocks, values: h.values, ..f })
    &&& h.blocks.len() == f.blocks.len()
    &&& h.values.len() >= f.values.len()
    &&& forall|v: ValueId| f.has_value(v) ==> #[trigger] h.value(v) == f.value(v)
    &&& forall|c: BlockId| #[trigger] f.has_block(c) && c != b ==> h.block(c) == f.block(c)
    &&& h.terminator(b) == f.terminator(b)
    &&& h.block(b).insts.len() >= f.block(b).insts.len()
    &&& forall|i: int|
        0 <= i < f.block(b).insts.len() ==> #[trigger] h.block(b).insts[i] == f.block(b).insts[i]
    &&& forall|i: int|
        f.block(b).insts.len() <= i < h.block(b).insts.len() ==> !((#[trigger] h.block(
            b,
        ).insts[i]).kind is Phi)
    &&& ran(h, m, b, env, memory).1 == ran(f, m, b, env, memory).1
    &&& forall|v: ValueId|
        f.has_value(v) ==> #[trigger] ran(h, m, b, env, memory).0[v] == ran(
            f,
            m,
            b,
            env,
            memory,
        ).0[v]
}

/// Values of `h` stay as they are in `k`.
pub open spec fn keeps<D, M>(
    h: FuncView,
    k: FuncView,
    m: Meaning<D, M>,
    b: BlockId,
    env: Map<ValueId, D>,
    memory: M,
) -> bool {
    &&& k.values.len() >= h.values.len()
    &&& forall|v: ValueId| h.has_value(v) ==> #[trigger] k.value(v) == h.value(v)
    &&& forall|v: ValueId|
        h.has_value(v) ==> #[trigger] ran(k, m, b, env, memory).0[v] == ran(
            h,
            m,
            b,
            env,
            memory,
        ).0[v]
}

proof fn lemma_appended<D, M>(
    f: FuncView,
    h: FuncView,
    m: Meaning<D, M>,
    b: BlockId,
    kind: KindView,
    ty: Type,
    env: Map<ValueId, D>,
    memory: M,
)
    requires
        m.computes_apart_from_memory(),
        adds(f, h, m, b, env, memory),
        semantics::is_plain(kind),
        h.values.len() < usize::MAX,
    ensures
        ({
            let k = h.append(b, kind, ty);
            let (y, mem) = ran(h, m, b, env, memory);
            &&& adds(f, k, m, b, env, memory)
            &&& keeps(h, k, m, b, env, memory)
            &&& k.values.len() == h.values.len() + 1
            &&& ran(k, m, b, env, memory).0[h.next_value()] == m.result(
                kind,
                ssa::data_of(kind, y),
                mem,
            )
        }),
{
    let k = h.append(b, kind, ty);
    let x = h.block(b).insts;
    let z = k.block(b).insts;
    let n = x.len() as int;
    semantics::lemma_executed_prefix(m, z, x, n, env, memory);
    ssa::lemma_shape_plain(kind);
    assert(z[n] == (InstView { result: Some(h.next_value()), kind }));
    assert forall|i: int| 0 <= i < f.block(b).insts.len() implies #[trigger] k.block(b).insts[i]
        == f.block(b).insts[i] by {
        assert(h.block(b).insts[i] == f.block(b).insts[i]);
    }
    assert forall|i: int| f.block(b).insts.len() <= i < k.block(b).insts.len() implies !((
    #[trigger] k.block(b).insts[i]).kind is Phi) by {
        if i < n {
            assert(k.block(b).insts[i] == h.block(b).insts[i]);
        }
    }
    assert forall|v: ValueId| f.has_value(v) implies #[trigger] k.value(v) == f.value(v) by {
        assert(h.value(v) == f.value(v));
    }
    assert forall|v: ValueId| f.has_value(v) implies #[trigger] ran(k, m, b, env, memory).0[v]
        == ran(f, m, b, env, memory).0[v] by {
        assert(ran(h, m, b, env, memory).0[v] == ran(f, m, b, env, memory).0[v]);
    }
}

proof fn lemma_keeps_on<D, M>(
    h: FuncView,
    k: FuncView,
    l: FuncView,
    m: Meaning<D, M>,
    b: BlockId,
    env: Map<ValueId, D>,
    memory: M,
)
    requires
        keeps(h, k, m, b, env, memory),
        keeps(k, l, m, b, env, memory),
    ensures
        keeps(h, l, m, b, env, memory),
{
    assert forall|v: ValueId| h.has_value(v) implies #[trigger] l.value(v) == h.value(v) by {
        assert(k.value(v) == h.value(v));
    }
    assert forall|v: ValueId| h.has_value(v) implies #[trigger] ran(l, m, b, env, memory).0[v]
        == ran(h, m, b, env, memory).0[v] by {
        assert(ran(k, m, b, env, memory).0[v] == ran(h, m, b, env, memory).0[v]);
    }
}

/// The data `e` are those of the arm at its store, if the arm is the one that is
/// run.
pub open spec fn arm_data<D, M>(
    f: FuncView,
    m: Meaning<D, M>,
    a: StoreArmView,
    head: BlockId,
    x: Map<ValueId, D>,
    e: Map<ValueId, D>,
    memory: M,
) -> bool {
    &&& forall|o: ValueId| #[trigger] is_outer(f, a.block, head, o) ==> x[o] == e[o]
    &&& forall|k: int|
        0 <= k < a.value_insts.len() ==> e[(#[trigger] a.value_insts[k]).1] == m.result(
            a.value_insts[k].2,
            ssa::data_of(a.value_insts[k].2, e),
            memory,
        )
}

proof fn lemma_copied_len(
    h: FuncView,
    b: BlockId,
    steps: Seq<(usize, ValueId, KindView)>,
    n: int,
)
    requires
        0 <= n,
    ensures
        boolean_stores::copied(h, b, steps, n).0.values.len() == h.values.len() + n,
    decreases n,
{
    if n > 0 {
        lemma_copied_len(h, b, steps, n - 1);
    }
}

#[verifier::rlimit(40)]
proof fn lemma_copied<D, M>(
    f: FuncView,
    h: FuncView,
    m: Meaning<D, M>,
    b: BlockId,
    a: StoreArmView,
    n: int,
    env: Map<ValueId, D>,
    memory: M,
    e: Map<ValueId, D>,
    taken: bool,
)
    requires
        f.wf(),
        m.computes_apart_from_memory(),
        adds(f, h, m, b, env, memory),
        steps_stand(f, a.block, b, a.value_insts),
        0 <= n <= a.value_insts.len(),
        h.values.len() + n <= usize::MAX,
        taken ==> arm_data(
            f,
            m,
            a,
            b,
            ran(f, m, b, env, memory).0,
            e,
            ran(f, m, b, env, memory).1,
        ),
    ensures
        ({
            let (k, map) = boolean_stores::copied(h, b, a.value_insts, n);
            &&& adds(f, k, m, b, env, memory)
            &&& keeps(h, k, m, b, env, memory)
            &&& forall|j: int| 0 <= j < n ==> map.contains_key((#[trigger] a.value_insts[j]).1)
            &&& forall|o: ValueId| #[trigger]
                map.contains_key(o) ==> h.values.len() <= map[o].0 < k.values.len() && o.0
                    < f.values.len()
            &&& taken ==> forall|o: ValueId| #[trigger]
                map.contains_key(o) ==> ran(k, m, b, env, memory).0[map[o]] == e[o]
        }),
    decreases n,
{
    if n > 0 {
        lemma_copied(f, h, m, b, a, n - 1, env, memory, e, taken);
        lemma_copied_len(h, b, a.value_insts, n - 1);
        let (g, before) = boolean_stores::copied(h, b, a.value_insts, n - 1);
        let (k, map) = boolean_stores::copied(h, b, a.value_insts, n);
        let (at, old, kind) = a.value_insts[n - 1];
        let rho = util::resolver(before, 1);
        let new = util::map_kind(kind, rho);
        assert(step_stands(f, a.block, b, a.value_insts, n - 1));
        query::lemma_inst_wf(f, a.block, at as int);
        select_laws::lemma_operands_mapped(kind, rho);
        lemma_appended(f, g, m, b, new, Type::I1, env, memory);
        lemma_keeps_on(h, g, k, m, b, env, memory);
        let y = ran(g, m, b, env, memory).0;
        let z = ran(k, m, b, env, memory).0;
        let list = edit::operands(kind);
        if taken {
            assert forall|j: int| 0 <= j < list.len() implies y[rho(#[trigger] list[j])]
                == e[list[j]] by {
                let o = list[j];
                assert(comes_from(f, a.block, b, a.value_insts, n - 1, o));
                if before.contains_key(o) {
                    assert(before[o] != o);
                    assert(util::resolve(before, before[o], 0) == before[o]);
                } else {
                    if exists|i: int| 0 <= i < n - 1 && (#[trigger] a.value_insts[i]).1 == o {
                        let i = choose|i: int|
                            0 <= i < n - 1 && (#[trigger] a.value_insts[i]).1 == o;
                        assert(before.contains_key(a.value_insts[i].1));
                    }
                    assert(is_outer(f, a.block, b, o));
                    assert(y[o] == ran(f, m, b, env, memory).0[o]);
                }
            }
            assert(ssa::data_of(new, y) =~= ssa::data_of(kind, e));
            assert(e[a.value_insts[n - 1].1] == m.result(
                a.value_insts[n - 1].2,
                ssa::data_of(a.value_insts[n - 1].2, e),
                ran(f, m, b, env, memory).1,
            ));
            assert forall|o: ValueId| #[trigger] map.contains_key(o) implies z[map[o]] == e[o] by {
                if o != old {
                    assert(before.contains_key(o));
                    assert(g.has_value(before[o]));
                }
            }
        }
        assert forall|j: int| 0 <= j < n implies map.contains_key(
            (#[trigger] a.value_insts[j]).1,
        ) by {
            if j < n - 1 {
                assert(before.contains_key(a.value_insts[j].1));
            }
        }
        assert forall|o: ValueId| #[trigger] map.contains_key(o) implies h.values.len() <= map[o].0
            < k.values.len() && o.0 < f.values.len() by {
            if o != old {
                assert(before.contains_key(o));
            }
        }
    } else {
        assert(keeps(h, h, m, b, env, memory));
    }
}

/// The truth of a stored value.
pub open spec fn worth<D, M>(m: Meaning<D, M>, y: Map<ValueId, D>, v: StoreValue) -> bool {
    match v {
        StoreValue::Constant(c) => c,
        StoreValue::Dynamic(s) => (m.truth)(y[s]),
    }
}

pub open spec fn value_in(h: FuncView, v: StoreValue) -> bool {
    v matches StoreValue::Dynamic(s) ==> h.has_value(s)
}

proof fn lemma_materialized<D, M>(
    f: FuncView,
    h: FuncView,
    m: Meaning<D, M>,
    b: BlockId,
    a: StoreArmView,
    env: Map<ValueId, D>,
    memory: M,
    e: Map<ValueId, D>,
    taken: bool,
)
    requires
        f.wf(),
        m.computes_apart_from_memory(),
        adds(f, h, m, b, env, memory),
        arm_stands(f, a, b),
        boolean_stores::materialized(h, b, a).0.values.len() <= usize::MAX,
        taken ==> arm_data(
            f,
            m,
            a,
            b,
            ran(f, m, b, env, memory).0,
            e,
            ran(f, m, b, env, memory).1,
        ),
    ensures
        ({
            let (k, t) = boolean_stores::materialized(h, b, a);
            &&& adds(f, k, m, b, env, memory)
            &&& keeps(h, k, m, b, env, memory)
            &&& value_in(k, t)
            &&& taken ==> worth(m, ran(k, m, b, env, memory).0, t) == worth(m, e, a.value)
        }),
{
    if let StoreValue::Dynamic(s) = a.value {
        let n = a.value_insts.len() as int;
        lemma_copied_len(h, b, a.value_insts, n);
        lemma_copied(f, h, m, b, a, n, env, memory, e, taken);
        let (k, map) = boolean_stores::copied(h, b, a.value_insts, n);
        if !map.contains_key(s) {
            if exists|i: int| 0 <= i < n && (#[trigger] a.value_insts[i]).1 == s {
                let i = choose|i: int| 0 <= i < n && (#[trigger] a.value_insts[i]).1 == s;
                assert(map.contains_key(a.value_insts[i].1));
            }
            assert(is_outer(f, a.block, b, s));
        }
    } else {
        assert(keeps(h, h, m, b, env, memory));
    }
}

#[verifier::rlimit(60)]
proof fn lemma_selected<D, M>(
    f: FuncView,
    h: FuncView,
    m: Meaning<D, M>,
    b: BlockId,
    cond: ValueId,
    t: StoreValue,
    e: StoreValue,
    env: Map<ValueId, D>,
    memory: M,
)
    requires
        m.computes_apart_from_memory(),
        m.has_booleans(),
        adds(f, h, m, b, env, memory),
        f.has_value(cond),
        value_in(h, t),
        value_in(h, e),
        boolean_stores::selected(h, b, cond, t, e) is Some,
        h.values.len() + 2 <= usize::MAX,
    ensures
        ({
            let (k, v) = boolean_stores::selected(h, b, cond, t, e)->Some_0;
            let y = ran(h, m, b, env, memory).0;
            &&& adds(f, k, m, b, env, memory)
            &&& keeps(h, k, m, b, env, memory)
            &&& value_in(k, v)
            &&& worth(m, ran(k, m, b, env, memory).0, v) == (if (m.truth)(
                ran(f, m, b, env, memory).0[cond],
            ) {
                worth(m, y, t)
            } else {
                worth(m, y, e)
            })
        }),
{
    let (y, mem) = ran(h, m, b, env, memory);
    let next = h.next_value();
    let not = boolean_stores::negated(h, b, cond);
    let kind = KindView::Unary { op: UnaryOp::Not, value: cond };
    assert(y[cond] == ran(f, m, b, env, memory).0[cond]);
    lemma_appended(f, h, m, b, kind, Type::I1, env, memory);
    let z = ran(not, m, b, env, memory).0;
    assert(ssa::data_of(kind, y) =~= seq![y[cond]]);
    assert(z[next] == m.of_one(kind, y[cond], mem));
    assert(z[next] == m.boolean(!(m.truth)(y[cond])));
    assert(keeps(h, h, m, b, env, memory));
    match (t, e) {
        (StoreValue::Constant(true), StoreValue::Dynamic(w)) => {
            lemma_combined(f, h, m, b, BinaryOp::Or, cond, w, env, memory);
        },
        (StoreValue::Constant(false), StoreValue::Dynamic(w)) => {
            lemma_combined(f, not, m, b, BinaryOp::And, next, w, env, memory);
            lemma_keeps_on(
                h,
                not,
                boolean_stores::combined(not, b, BinaryOp::And, next, w),
                m,
                b,
                env,
                memory,
            );
            assert(z[w] == y[w]);
        },
        (StoreValue::Dynamic(w), StoreValue::Constant(true)) => {
            lemma_combined(f, not, m, b, BinaryOp::Or, next, w, env, memory);
            lemma_keeps_on(
                h,
                not,
                boolean_stores::combined(not, b, BinaryOp::Or, next, w),
                m,
                b,
                env,
                memory,
            );
            assert(z[w] == y[w]);
        },
        (StoreValue::Dynamic(w), StoreValue::Constant(false)) => {
            lemma_combined(f, h, m, b, BinaryOp::And, cond, w, env, memory);
        },
        _ => {},
    }
}

proof fn lemma_combined<D, M>(
    f: FuncView,
    h: FuncView,
    m: Meaning<D, M>,
    b: BlockId,
    op: BinaryOp,
    v: ValueId,
    w: ValueId,
    env: Map<ValueId, D>,
    memory: M,
)
    requires
        m.computes_apart_from_memory(),
        m.has_booleans(),
        adds(f, h, m, b, env, memory),
        op == BinaryOp::And || op == BinaryOp::Or,
        h.values.len() < usize::MAX,
    ensures
        ({
            let k = boolean_stores::combined(h, b, op, v, w);
            let y = ran(h, m, b, env, memory).0;
            &&& adds(f, k, m, b, env, memory)
            &&& keeps(h, k, m, b, env, memory)
            &&& k.has_value(h.next_value())
            &&& (m.truth)(ran(k, m, b, env, memory).0[h.next_value()]) == (if op == BinaryOp::And {
                (m.truth)(y[v]) && (m.truth)(y[w])
            } else {
                (m.truth)(y[v]) || (m.truth)(y[w])
            })
        }),
{
    let (y, mem) = ran(h, m, b, env, memory);
    let kind = KindView::Binary { op, lhs: v, rhs: w };
    lemma_appended(f, h, m, b, kind, Type::I1, env, memory);
    assert(ssa::data_of(kind, y) =~= seq![y[v], y[w]]);
    let k = boolean_stores::combined(h, b, op, v, w);
    assert(ran(k, m, b, env, memory).0[h.next_value()] == m.of_two(op, v, w, y[v], y[w], mem));
}

proof fn lemma_as_integer<D, M>(
    f: FuncView,
    h: FuncView,
    m: Meaning<D, M>,
    b: BlockId,
    v: StoreValue,
    env: Map<ValueId, D>,
    memory: M,
)
    requires
        m.computes_apart_from_memory(),
        m.has_integers(),
        adds(f, h, m, b, env, memory),
        value_in(h, v),
        h.values.len() < usize::MAX,
    ensures
        ({
            let (k, w) = boolean_stores::as_integer(h, b, v);
            &&& adds(f, k, m, b, env, memory)
            &&& keeps(h, k, m, b, env, memory)
            &&& k.has_value(w)
            &&& match v {
                StoreValue::Constant(c) => k.value(w).kind == ValueKindView::Const(
                    Const::Int(
                        if c {
                            1i32
                        } else {
                            0i32
                        },
                    ),
                ),
                StoreValue::Dynamic(s) => ran(k, m, b, env, memory).0[w] == m.integer(
                    if (m.truth)(ran(h, m, b, env, memory).0[s]) {
                        1
                    } else {
                        0
                    },
                ),
            }
        }),
{
    let (y, mem) = ran(h, m, b, env, memory);
    match v {
        StoreValue::Constant(c) => {
            let k = Const::Int(
                if c {
                    1i32
                } else {
                    0i32
                },
            );
            let g = util::with_const(h, k);
            integer_laws::lemma_const_there(h, k);
            assert forall|v: ValueId| f.has_value(v) implies #[trigger] g.value(v) == f.value(
                v,
            ) by {
                assert(h.value(v) == f.value(v));
            }
            assert(g.blocks == h.blocks);
            assert(ran(g, m, b, env, memory) == ran(h, m, b, env, memory));
        },
        StoreValue::Dynamic(s) => {
            let kind = KindView::Cast { op: CastOp::BoolToI32, value: s };
            lemma_appended(f, h, m, b, kind, Type::I32, env, memory);
            assert(ssa::data_of(kind, y) =~= seq![y[s]]);
            assert(m.result(kind, ssa::data_of(kind, y), mem) == m.of_one(kind, y[s], mem));
        },
    }
}

// ---------------------------------------------------------------------------
// What is cleared from the arms
// ---------------------------------------------------------------------------

/// `k` is `h` with some instructions of block `b` cleared.
pub open spec fn is_cleared(h: FuncView, k: FuncView, b: BlockId) -> bool {
    &&& k == (FuncView { blocks: k.blocks, ..h })
    &&& k.blocks.len() == h.blocks.len()
    &&& forall|c: BlockId| #[trigger] h.has_block(c) && c != b ==> k.block(c) == h.block(c)
    &&& k.terminator(b) == h.terminator(b)
    &&& k.block(b).insts.len() == h.block(b).insts.len()
    &&& forall|i: int|
        0 <= i < h.block(b).insts.len() ==> (#[trigger] k.inst(b, i)) == h.inst(b, i) || k.inst(
            b,
            i,
        ) == edit::nop()
}

proof fn lemma_one_cleared(h: FuncView, k: FuncView, b: BlockId, at: int)
    requires
        is_cleared(h, k, b),
        h.has_block(b),
        0 <= at < h.block(b).insts.len(),
    ensures
        is_cleared(h, k.with_inst(b, at, edit::nop()), b),
        k.with_inst(b, at, edit::nop()).inst(b, at) == edit::nop(),
        forall|i: int|
            0 <= i < h.block(b).insts.len() && k.inst(b, i) == edit::nop() ==> (
            #[trigger] k.with_inst(b, at, edit::nop()).inst(b, i)) == edit::nop(),
{
    let l = k.with_inst(b, at, edit::nop());
    assert forall|i: int| 0 <= i < h.block(b).insts.len() implies (#[trigger] l.inst(b, i))
        == h.inst(b, i) || l.inst(b, i) == edit::nop() by {
        assert(k.inst(b, i) == h.inst(b, i) || k.inst(b, i) == edit::nop());
    }
}

proof fn lemma_steps_cleared(
    h: FuncView,
    k: FuncView,
    b: BlockId,
    steps: Seq<(usize, ValueId, KindView)>,
    n: int,
)
    requires
        is_cleared(h, k, b),
        h.has_block(b),
        0 <= n <= steps.len(),
        forall|j: int|
            0 <= j < steps.len() ==> (#[trigger] steps[j]).0 < h.block(b).insts.len(),
    ensures
        ({
            let l = boolean_stores::steps_cleared(k, b, steps, n);
            &&& is_cleared(h, l, b)
            &&& forall|j: int|
                0 <= j < n ==> l.inst(b, (#[trigger] steps[j]).0 as int) == edit::nop()
            &&& forall|i: int|
                0 <= i < h.block(b).insts.len() && k.inst(b, i) == edit::nop() ==> (
                #[trigger] l.inst(b, i)) == edit::nop()
        }),
    decreases n,
{
    if n > 0 {
        lemma_steps_cleared(h, k, b, steps, n - 1);
        let before = boolean_stores::steps_cleared(k, b, steps, n - 1);
        assert(steps[n - 1].0 < h.block(b).insts.len());
        lemma_one_cleared(h, before, b, steps[n - 1].0 as int);
        let l = boolean_stores::steps_cleared(k, b, steps, n);
        assert forall|j: int| 0 <= j < n implies l.inst(b, (#[trigger] steps[j]).0 as int)
            == edit::nop() by {
            if j < n - 1 {
                assert(before.inst(b, steps[j].0 as int) == edit::nop());
            }
        }
        assert forall|i: int|
            0 <= i < h.block(b).insts.len() && k.inst(b, i) == edit::nop() implies (
        #[trigger] l.inst(b, i)) == edit::nop() by {
            assert(before.inst(b, i) == edit::nop());
        }
    }
}

proof fn lemma_arm_cleared(f: FuncView, h: FuncView, block: BlockId, head: BlockId)
    requires
        verify::valid(f),
        fits(f),
        f.has_block(block),
        boolean_stores::store_arm(f, block, head) is Some,
        h.has_block(block),
        h.block(block).insts == f.block(block).insts,
    ensures
        ({
            let k = boolean_stores::arm_cleared(
                h,
                boolean_stores::store_arm(f, block, head)->Some_0,
            );
            &&& is_cleared(h, k, block)
            &&& forall|i: int|
                f.has_inst(block, i) && !(f.inst(block, i).kind is Nop) ==> (#[trigger] k.inst(
                    block,
                    i,
                )) == edit::nop()
        }),
{
    let a = boolean_stores::store_arm(f, block, head)->Some_0;
    lemma_arm_stands(f, block, head);
    let n = h.block(block).insts.len() as int;
    let f1 = match a.gep {
        Some((at, _)) => h.with_inst(block, at as int, edit::nop()),
        None => h,
    };
    assert(is_cleared(h, h, block));
    if let Some((at, _)) = a.gep {
        lemma_one_cleared(h, h, block, at as int);
    }
    let steps = a.value_insts;
    assert forall|j: int| 0 <= j < steps.len() implies (#[trigger] steps[j]).0 < n by {
        assert(step_stands(f, block, head, steps, j));
    }
    lemma_steps_cleared(h, f1, block, steps, steps.len() as int);
    let f2 = boolean_stores::steps_cleared(f1, block, steps, steps.len() as int);
    let f3 = match a.value_cast_at {
        Some(at) => f2.with_inst(block, at as int, edit::nop()),
        None => f2,
    };
    if let Some(at) = a.value_cast_at {
        lemma_one_cleared(h, f2, block, at as int);
    }
    let k = boolean_stores::arm_cleared(h, a);
    lemma_one_cleared(h, f3, block, a.store_at as int);
    assert forall|i: int|
        f.has_inst(block, i) && !(f.inst(block, i).kind is Nop) implies (#[trigger] k.inst(
        block,
        i,
    )) == edit::nop() by {
        let insts = f.block(block).insts;
        let at = query::active(f, block);
        threading_laws::lemma_active_complete(insts, n, i);
        let j = choose|j: int| 0 <= j < at.len() && at[j] == i as usize;
        assert(boolean_stores::consumed(a.store_at, a.gep, steps, a.value_cast_at, at[j]));
        if i != a.store_at {
            if a.value_cast_at == Some(i as usize) {
                assert(f3.inst(block, i) == edit::nop());
            } else if exists|x: int|
                0 <= x < steps.len() && (#[trigger] steps[x]).0 == i as usize {
                let x = choose|x: int|
                    0 <= x < steps.len() && (#[trigger] steps[x]).0 == i as usize;
                assert(f2.inst(block, steps[x].0 as int) == edit::nop());
                assert(f3.inst(block, i) == edit::nop());
            } else {
                assert(f1.inst(block, i) == edit::nop());
                assert(f2.inst(block, i) == edit::nop());
                assert(f3.inst(block, i) == edit::nop());
            }
        }
    }
}

// ---------------------------------------------------------------------------
// The diamond
// ---------------------------------------------------------------------------

/// The diamond as it stands in the function.
pub open spec fn ready(f: FuncView, d: StoreDiamondView) -> bool {
    let t = d.on_true.block;
    let e = d.on_false.block;
    &&& f.has_block(d.block)
    &&& f.has_block(t)
    &&& f.has_block(e)
    &&& f.terminator(d.block) == Some(
        Terminator::Branch { cond: d.cond, then_target: t, else_target: e },
    )
    &&& t != e
    &&& select_laws::led_by(f, t, d.block)
    &&& select_laws::led_by(f, e, d.block)
    &&& boolean_stores::store_arm(f, t, d.block) == Some(d.on_true)
    &&& boolean_stores::store_arm(f, e, d.block) == Some(d.on_false)
    &&& d.on_true.merge == d.on_false.merge
    &&& !query::has_phi(f.block(d.on_true.merge).insts)
    &&& boolean_stores::same_address(f, d.on_true, d.on_false)
    &&& query::all_available_at(f, boolean_stores::address_reads(d.on_true), d.block)
    &&& arm_stands(f, d.on_true, d.block)
    &&& arm_stands(f, d.on_false, d.block)
}

proof fn lemma_diamond(f: FuncView, b: BlockId)
    requires
        verify::valid(f),
        fits(f),
        f.has_block(b),
        boolean_stores::diamond_at(f, b) is Some,
    ensures
        ready(f, boolean_stores::diamond_at(f, b)->Some_0),
{
    let d = boolean_stores::diamond_at(f, b)->Some_0;
    query::lemma_terminator_wf(f, b);
    if let Some(Terminator::Branch { cond, then_target, else_target }) = f.terminator(b) {
        lemma_arm_stands(f, then_target, b);
        lemma_arm_stands(f, else_target, b);
        let n = f.blocks.len() as int;
        assert forall|q: BlockId|
            f.has_block(q) && #[trigger] cfg::edge(f, q, then_target) implies q == b by {
            cfg::lemma_preds_below(f, then_target, n, q);
            assert(seq![b].contains(q));
        }
        assert forall|q: BlockId|
            f.has_block(q) && #[trigger] cfg::edge(f, q, else_target) implies q == b by {
            cfg::lemma_preds_below(f, else_target, n, q);
            assert(seq![b].contains(q));
        }
    }
}

proof fn lemma_first_diamond(f: FuncView, b: int)
    requires
        verify::valid(f),
        fits(f),
        0 <= b,
    ensures
        boolean_stores::first_diamond(f, b) matches Some(d) ==> ready(f, d),
    decreases f.blocks.len() - b,
{
    if b < f.blocks.len() {
        if boolean_stores::diamond_at(f, BlockId(b as usize)) is Some {
            lemma_diamond(f, BlockId(b as usize));
        } else {
            lemma_first_diamond(f, b + 1);
        }
    }
}

/// The arms stand apart from each other and behind the head.
proof fn lemma_arms_apart(f: FuncView, d: StoreDiamondView)
    requires
        verify::valid(f),
        fits(f),
        entered_once(f),
        ready(f, d),
        cfg::reachable(f, d.block),
    ensures
        ({
            let t = d.on_true.block;
            let e = d.on_false.block;
            &&& t != d.block && e != d.block
            &&& cfg::reachable(f, t) && cfg::reachable(f, e)
            &&& !cfg::dominates(f, t, d.block) && !cfg::dominates(f, e, d.block)
            &&& !cfg::dominates(f, t, e) && !cfg::dominates(f, e, t)
            &&& d.on_true.merge != t && d.on_true.merge != e
            &&& f.has_block(d.on_true.merge)
        }),
{
    let b = d.block;
    let t = d.on_true.block;
    let e = d.on_false.block;
    meaning_laws::lemma_targets(f, b);
    meaning_laws::lemma_targets(f, t);
    meaning_laws::lemma_targets(f, e);
    ssa::lemma_reachable_next(f, b, t);
    ssa::lemma_reachable_next(f, b, e);
    assert(t != f.entry && e != f.entry);
    assert(ssa::ahead_of_preds(f, b, t));
    assert(ssa::ahead_of_preds(f, b, e));
    ssa::lemma_dominated_through_preds(f, b, t);
    ssa::lemma_dominated_through_preds(f, b, e);
    if cfg::dominates(f, t, b) {
        ssa::dominance_is_antisymmetric(f, t, b);
    }
    if cfg::dominates(f, e, b) {
        ssa::dominance_is_antisymmetric(f, e, b);
    }
    if cfg::dominates(f, t, e) {
        ssa::lemma_dominates_pred(f, t, b, e);
    }
    if cfg::dominates(f, e, t) {
        ssa::lemma_dominates_pred(f, e, b, t);
    }
    query::lemma_terminator_wf(f, t);
}

/// The values that the new function lacks.
pub open spec fn lacking(f: FuncView, g: FuncView) -> Set<ValueId> {
    Set::new(|v: ValueId| !f.has_value(v) || !verify::defined(g, v))
}

/// The converted function, block by block.
pub open spec fn shaped(f: FuncView, g: FuncView, d: StoreDiamondView) -> bool {
    let b = d.block;
    let t = d.on_true.block;
    let e = d.on_false.block;
    &&& g.entry == f.entry
    &&& g.blocks.len() == f.blocks.len()
    &&& g.values.len() >= f.values.len()
    &&& forall|v: ValueId| f.has_value(v) ==> #[trigger] g.value(v) == f.value(v)
    &&& forall|c: BlockId| #[trigger]
        f.has_block(c) && c != b && c != t && c != e ==> g.block(c) == f.block(c)
    &&& g.terminator(b) == Some(Terminator::Jump(d.on_true.merge))
    &&& g.block(b).insts.len() >= f.block(b).insts.len()
    &&& forall|i: int|
        0 <= i < f.block(b).insts.len() ==> #[trigger] g.block(b).insts[i] == f.block(b).insts[i]
    &&& forall|i: int|
        f.block(b).insts.len() <= i < g.block(b).insts.len() ==> !((#[trigger] g.block(
            b,
        ).insts[i]).kind is Phi)
    &&& g.block(t).insts.len() == f.block(t).insts.len()
    &&& g.block(e).insts.len() == f.block(e).insts.len()
    &&& forall|i: int|
        f.has_inst(t, i) && !(f.inst(t, i).kind is Nop) ==> (#[trigger] g.inst(t, i))
            == edit::nop()
    &&& forall|i: int|
        f.has_inst(e, i) && !(f.inst(e, i).kind is Nop) ==> (#[trigger] g.inst(e, i))
            == edit::nop()
    &&& forall|i: int|
        f.has_inst(t, i) && f.inst(t, i).kind is Nop ==> (#[trigger] g.inst(t, i)) == f.inst(t, i)
            || g.inst(t, i) == edit::nop()
    &&& forall|i: int|
        f.has_inst(e, i) && f.inst(e, i).kind is Nop ==> (#[trigger] g.inst(e, i)) == f.inst(e, i)
            || g.inst(e, i) == edit::nop()
}

/// The address that both arms store to.
pub open spec fn address<D, M>(
    m: Meaning<D, M>,
    a: StoreArmView,
    x: Map<ValueId, D>,
    memory: M,
) -> D {
    match a.gep {
        Some((_, kind)) => m.result(kind, ssa::data_of(kind, x), memory),
        None => x[a.pointer],
    }
}

/// What the head of the converted function does before and with its store.
pub open spec fn head_built<D, M>(
    f: FuncView,
    g: FuncView,
    m: Meaning<D, M>,
    d: StoreDiamondView,
    data: Map<ValueId, D>,
    memory: M,
    y: Map<ValueId, D>,
    ptr: ValueId,
    value: ValueId,
) -> bool {
    let b = d.block;
    let n = g.block(b).insts.len() as int;
    let (x, mem) = ran(f, m, b, data, memory);
    &&& n >= 1
    &&& semantics::executed(m, g.block(b).insts, n - 1, data, memory) == (y, mem)
    &&& g.block(b).insts[n - 1] == (InstView {
        result: None,
        kind: KindView::Store { ptr, value },
    })
    &&& forall|v: ValueId| f.has_value(v) ==> #[trigger] y[v] == x[v]
    &&& y[ptr] == address(m, d.on_true, x, mem)
}

proof fn lemma_address<D, M>(
    f: FuncView,
    h: FuncView,
    m: Meaning<D, M>,
    b: BlockId,
    a: StoreArmView,
    data: Map<ValueId, D>,
    memory: M,
)
    requires
        verify::valid(f),
        m.computes_apart_from_memory(),
        adds(f, h, m, b, data, memory),
        arm_stands(f, a, b),
        f.has_value(a.pointer),
        h.values.len() < usize::MAX,
    ensures
        ({
            let (k, ptr) = boolean_stores::with_address(h, b, a);
            &&& adds(f, k, m, b, data, memory)
            &&& keeps(h, k, m, b, data, memory)
            &&& ran(k, m, b, data, memory).0[ptr] == address(
                m,
                a,
                ran(f, m, b, data, memory).0,
                ran(f, m, b, data, memory).1,
            )
        }),
{
    if let Some((at, kind)) = a.gep {
        lemma_appended(f, h, m, b, kind, h.value(a.pointer).ty, data, memory);
        let y = ran(h, m, b, data, memory).0;
        let x = ran(f, m, b, data, memory).0;
        query::lemma_inst_wf(f, a.block, at as int);
        let list = edit::operands(kind);
        assert forall|j: int| 0 <= j < list.len() implies y[#[trigger] list[j]] == x[list[j]] by {
            if list[j].0 >= f.values.len() {
                verify::lemma_operand_out_of_range(kind, f.blocks.len(), f.values.len(), j);
            }
            assert(f.has_value(list[j]));
        }
        assert(ssa::data_of(kind, y) =~= ssa::data_of(kind, x));
    } else {
        assert(keeps(h, h, m, b, data, memory));
    }
}

/// The second function is the first with the diamond converted.
#[verifier::opaque]
pub open spec fn is_converted(f: FuncView, g: FuncView, d: StoreDiamondView) -> bool {
    boolean_stores::diamond_converted(f, d) == Some(g)
}

#[verifier::rlimit(80)]
proof fn lemma_built<D, M>(
    f: FuncView,
    g: FuncView,
    m: Meaning<D, M>,
    d: StoreDiamondView,
    data: Map<ValueId, D>,
    memory: M,
    e: Map<ValueId, D>,
    known: bool,
    way: bool,
) -> (r: (Map<ValueId, D>, ValueId, ValueId))
    requires
        verify::valid(f),
        fits(f),
        m.computes_apart_from_memory(),
        m.has_booleans(),
        m.has_integers(),
        ready(f, d),
        is_converted(f, g, d),
        g.values.len() + 2 <= usize::MAX,
        way == (m.truth)(ran(f, m, d.block, data, memory).0[d.cond]),
        known ==> arm_data(
            f,
            m,
            if way {
                d.on_true
            } else {
                d.on_false
            },
            d.block,
            ran(f, m, d.block, data, memory).0,
            e,
            ran(f, m, d.block, data, memory).1,
        ),
    ensures
        shaped(f, g, d),
        head_built(f, g, m, d, data, memory, r.0, r.1, r.2),
        ({
            let (y, ptr, value) = r;
            let w = worth(
                m,
                e,
                if way {
                    d.on_true.value
                } else {
                    d.on_false.value
                },
            );
            let number = if w {
                1i32
            } else {
                0i32
            };
            known ==> y[value] == m.integer(number) || (g.has_value(value) && g.value(value).kind
                == ValueKindView::Const(Const::Int(number)))
        }),
{
    reveal(is_converted);
    let b = d.block;
    query::lemma_terminator_wf(f, b);
    query::lemma_inst_wf(f, d.on_true.block, d.on_true.store_at as int);
    let (f1, t) = boolean_stores::materialized(f, b, d.on_true);
    let (f2, s) = boolean_stores::materialized(f1, b, d.on_false);
    let (f3, choice) = boolean_stores::selected(f2, b, d.cond, t, s)->Some_0;
    let (f4, value) = boolean_stores::as_integer(f3, b, choice);
    let (f5, ptr) = boolean_stores::with_address(f4, b, d.on_true);
    let f6 = f5.append_effect(b, KindView::Store { ptr, value });
    let f7 = f6.with_terminator(b, Some(Terminator::Jump(d.on_true.merge)));
    let f8 = boolean_stores::arm_cleared(f7, d.on_true);
    assert(g == boolean_stores::arm_cleared(f8, d.on_false));
    lemma_copied_len(f, b, d.on_true.value_insts, d.on_true.value_insts.len() as int);
    lemma_copied_len(f1, b, d.on_false.value_insts, d.on_false.value_insts.len() as int);
    assert(f5.values.len() <= g.values.len()) by {
        lemma_clearing_keeps_values(f7, d.on_true);
        lemma_clearing_keeps_values(f8, d.on_false);
    }
    assert(adds(f, f, m, b, data, memory));
    lemma_materialized(f, f, m, b, d.on_true, data, memory, e, known && way);
    lemma_materialized(f, f1, m, b, d.on_false, data, memory, e, known && !way);
    let y1 = ran(f1, m, b, data, memory).0;
    let y2 = ran(f2, m, b, data, memory).0;
    assert(worth(m, y2, t) == worth(m, y1, t)) by {
        if let StoreValue::Dynamic(v) = t {
            assert(f1.has_value(v));
        }
    }
    assert(value_in(f2, t));
    lemma_selected(f, f2, m, b, d.cond, t, s, data, memory);
    lemma_as_integer(f, f3, m, b, choice, data, memory);
    lemma_address(f, f4, m, b, d.on_true, data, memory);
    let (y, mem) = ran(f5, m, b, data, memory);
    let insts = f6.block(b).insts;
    let n = insts.len() as int;
    semantics::lemma_executed_prefix(m, insts, f5.block(b).insts, n - 1, data, memory);
    assert(f.has_block(d.on_true.block) && f.has_block(d.on_false.block));
    assert(f5.block(d.on_false.block) == f.block(d.on_false.block));
    assert(f7.block(d.on_true.block) == f.block(d.on_true.block));
    lemma_arm_cleared(f, f7, d.on_true.block, b);
    assert(f7.has_block(d.on_false.block) && f8.has_block(d.on_true.block));
    assert(f8.block(d.on_false.block) == f.block(d.on_false.block));
    lemma_arm_cleared(f, f8, d.on_false.block, b);
    assert(f7.has_block(b) && f8.has_block(b));
    assert(g.block(b) == f7.block(b));
    assert(f8.block(d.on_true.block) == g.block(d.on_true.block));
    assert forall|c: BlockId| #[trigger]
        f.has_block(c) && c != b && c != d.on_true.block && c
            != d.on_false.block implies g.block(c) == f.block(c) by {
        assert(f7.has_block(c) && f8.has_block(c));
        assert(f7.block(c) == f5.block(c));
    }
    assert forall|v: ValueId| f.has_value(v) implies #[trigger] g.value(v) == f.value(v) by {
        assert(f5.value(v) == f.value(v));
    }
    assert forall|i: int| 0 <= i < f.block(b).insts.len() implies #[trigger] g.block(b).insts[i]
        == f.block(b).insts[i] by {
        assert(f5.block(b).insts[i] == f.block(b).insts[i]);
    }
    assert forall|i: int| f.block(b).insts.len() <= i < g.block(b).insts.len() implies !((
    #[trigger] g.block(b).insts[i]).kind is Phi) by {
        if i < n - 1 {
            assert(g.block(b).insts[i] == f5.block(b).insts[i]);
        }
    }
    assert(shaped(f, g, d)) by {
        let x = d.on_true.block;
        let z = d.on_false.block;
        assert forall|i: int|
            f.has_inst(x, i) && !(f.inst(x, i).kind is Nop) implies (#[trigger] g.inst(x, i))
            == edit::nop() by {
            assert(f8.inst(x, i) == edit::nop());
        }
        assert forall|i: int| f.has_inst(x, i) && f.inst(x, i).kind is Nop implies (
        #[trigger] g.inst(x, i)) == f.inst(x, i) || g.inst(x, i) == edit::nop() by {
            assert(f8.inst(x, i) == f7.inst(x, i) || f8.inst(x, i) == edit::nop());
        }
        assert forall|i: int| f.has_inst(z, i) && f.inst(z, i).kind is Nop implies (
        #[trigger] g.inst(z, i)) == f.inst(z, i) || g.inst(z, i) == edit::nop() by {
            assert(g.inst(z, i) == f8.inst(z, i) || g.inst(z, i) == edit::nop());
        }
    }
    if known {
        if choice is Constant {
            assert(f5.value(value) == f4.value(value));
        } else {
            assert(f4.has_value(value));
        }
    }
    (y, ptr, value)
}

proof fn lemma_clearing_keeps_values(h: FuncView, a: StoreArmView)
    ensures
        boolean_stores::arm_cleared(h, a).values == h.values,
{
    let f1 = match a.gep {
        Some((at, _)) => h.with_inst(a.block, at as int, edit::nop()),
        None => h,
    };
    lemma_clearing_steps_keeps_values(
        f1,
        a.block,
        a.value_insts,
        a.value_insts.len() as int,
    );
}

proof fn lemma_clearing_steps_keeps_values(
    h: FuncView,
    b: BlockId,
    steps: Seq<(usize, ValueId, KindView)>,
    n: int,
)
    ensures
        boolean_stores::steps_cleared(h, b, steps, n).values == h.values,
    decreases n,
{
    if n > 0 {
        lemma_clearing_steps_keeps_values(h, b, steps, n - 1);
    }
}

// ---------------------------------------------------------------------------
// Runs
// ---------------------------------------------------------------------------

/// Constants that are stored are integers.
pub open spec fn stores_integers(f: FuncView) -> bool {
    forall|b: BlockId, i: int|
        f.has_inst(b, i) ==> ((#[trigger] f.inst(b, i)).kind matches KindView::Store {
            ptr: _,
            value,
        } ==> (f.value(value).kind matches ValueKindView::Const(c) ==> c is Int || c
            == Const::Zero(Type::I32)))
}

/// What is defined outside the arms is defined in the new function.
proof fn lemma_outer_kept(f: FuncView, g: FuncView, d: StoreDiamondView, o: ValueId)
    requires
        verify::valid(f),
        fits(f),
        entered_once(f),
        ready(f, d),
        shaped(f, g, d),
        cfg::reachable(f, d.block),
        f.has_value(o),
        verify::defined(f, o),
        query::available_at(f, o, d.block),
    ensures
        !lacking(f, g).contains(o),
        f.value(o).kind matches ValueKindView::Inst(owner, _) ==> owner != d.on_true.block && owner
            != d.on_false.block,
{
    lemma_arms_apart(f, d);
    if let ValueKindView::Inst(owner, at) = f.value(o).kind {
        assert(f.has_inst(owner, at as int));
        assert(f.has_block(owner));
        assert(g.inst(owner, at as int) == f.inst(owner, at as int)) by {
            if owner == d.block {
                assert(g.block(owner).insts[at as int] == f.block(owner).insts[at as int]);
            }
        }
    }
}

/// What the new function reads outside the arms, the old one has too.
proof fn lemma_reads_kept(f: FuncView, g: FuncView, d: StoreDiamondView, c: BlockId, i: int)
    requires
        verify::valid(f),
        verify::valid(g),
        shaped(f, g, d),
        f.has_inst(c, i),
        c != d.on_true.block,
        c != d.on_false.block,
    ensures
        semantics::ignores(f.inst(c, i).kind, lacking(f, g)),
        g.inst(c, i) == f.inst(c, i),
{
    assert(f.has_block(c));
    assert(g.inst(c, i) == f.inst(c, i)) by {
        if c == d.block {
            assert(g.block(c).insts[i] == f.block(c).insts[i]);
        }
    }
    let kind = f.inst(c, i).kind;
    let list = edit::operands(kind);
    assert(verify::block_valid(g, c));
    assert(verify::inst_valid(g, c, i));
    query::lemma_inst_wf(f, c, i);
    assert forall|k: int| 0 <= k < list.len() implies !lacking(f, g).contains(
        #[trigger] list[k],
    ) by {
        if let KindView::Phi { incomings } = kind {
            assert(list[k] == incomings[k].1);
            assert(verify::available(
                g,
                incomings[k].1,
                incomings[k].0,
                verify::block_end(g, incomings[k].0),
            ));
        } else {
            assert(verify::available(g, list[k], c, i));
            if list[k].0 >= f.values.len() {
                verify::lemma_operand_out_of_range(kind, f.blocks.len(), f.values.len(), k);
            }
        }
    }
}

/// What no operation of a block defines is not changed by it.
pub proof fn lemma_not_computed<D, M>(
    m: Meaning<D, M>,
    insts: Seq<InstView>,
    n: int,
    env: Map<ValueId, D>,
    memory: M,
    v: ValueId,
)
    requires
        0 <= n <= insts.len(),
        forall|i: int|
            0 <= i < insts.len() && (#[trigger] insts[i]).result == Some(v) ==> insts[i].kind
                is Nop,
    ensures
        semantics::executed(m, insts, n, env, memory).0[v] == env[v],
    decreases n,
{
    if n > 0 {
        lemma_not_computed(m, insts, n - 1, env, memory, v);
        assert(insts[n - 1].result == Some(v) ==> insts[n - 1].kind is Nop);
    }
}

/// The arm that is run stores the boolean, as an integer, to the address.
proof fn lemma_arm_stores<D, M>(
    f: FuncView,
    m: Meaning<D, M>,
    d: StoreDiamondView,
    a: StoreArmView,
    x: Map<ValueId, D>,
    memory: M,
)
    requires
        verify::valid(f),
        fits(f),
        entered_once(f),
        stores_integers(f),
        m.computes_apart_from_memory(),
        m.has_integers(),
        (m.constant)(Const::Zero(Type::I32)) == m.integer(0),
        ready(f, d),
        a == d.on_true || a == d.on_false,
        cfg::reachable(f, d.block),
        cfg::reachable(f, a.block),
        ssa::knows(f, m, a.block, 0, x),
    ensures
        ({
            let e = at_store(f, m, a, x, memory);
            &&& arm_data(f, m, a, d.block, x, e, memory)
            &&& e[stored_in(f, a)] == m.integer(
                if worth(m, e, a.value) {
                    1
                } else {
                    0
                },
            )
            &&& e[a.pointer] == address(m, d.on_true, x, memory)
        }),
{
    let e = at_store(f, m, a, x, memory);
    let k = a.store_at as int;
    let w = stored_in(f, a);
    lemma_arm_run(f, m, a, d.block, x, memory);
    lemma_arms_apart(f, d);
    assert(f.has_inst(a.block, k));
    assert(verify::block_valid(f, a.block));
    assert(verify::inst_valid(f, a.block, k));
    query::lemma_inst_wf(f, a.block, k);
    let list = edit::operands(f.inst(a.block, k).kind);
    assert(list[0] == a.pointer && list[1] == w);
    assert(verify::available(f, list[0], a.block, k));
    assert(verify::available(f, list[1], a.block, k));
    ssa::lemma_available_is_known(f, w, a.block, k);
    ssa::lemma_available_is_known(f, a.pointer, a.block, k);
    assert forall|o: ValueId| #[trigger] is_outer(f, a.block, d.block, o) implies x[o] == e[o] by {
        assert(e[o] == x[o]);
    }
    assert forall|j: int| 0 <= j < a.value_insts.len() implies e[(
    #[trigger] a.value_insts[j]).1] == m.result(
        a.value_insts[j].2,
        ssa::data_of(a.value_insts[j].2, e),
        memory,
    ) by {
        assert(step_stands(f, a.block, d.block, a.value_insts, j));
        let at = a.value_insts[j].0 as int;
        let inst = f.inst(a.block, at);
        assert(ssa::settled(m, inst, e)) by {
            reveal(ssa::knows);
            assert(ssa::passed(f, a.block, at, a.block, k));
        }
    }
    match a.value {
        StoreValue::Constant(c) => {
            assert(constants_kept(f, m, e)) by {
                reveal(ssa::knows);
            }
            assert(f.value(w).kind is Const);
        },
        StoreValue::Dynamic(s) => {
            let kind = KindView::Cast { op: CastOp::BoolToI32, value: s };
            ssa::lemma_computed(f, m, a.block, k, e, w, kind, memory);
            assert(ssa::data_of(kind, e) =~= seq![e[s]]);
            assert(m.result(kind, ssa::data_of(kind, e), memory) == m.of_one(kind, e[s], memory));
        },
    }
    let reads = boolean_stores::address_reads(d.on_true);
    if let Some((at, kind)) = d.on_true.gep {
        if a.gep is None || a.gep->Some_0.1 != kind {
            assert(a.pointer == d.on_true.pointer);
            assert(a == d.on_false);
            if a.gep is None {
                assert(cfg::dominates(f, d.on_true.block, a.block));
            }
        }
        assert(util::def_kind(f, a.pointer) == Some(kind));
        ssa::lemma_computed(f, m, a.block, k, e, a.pointer, kind, memory);
        let ops = edit::operands(kind);
        assert(ssa::data_of(kind, e) =~= ssa::data_of(kind, x)) by {
            assert forall|j: int| 0 <= j < ops.len() implies e[#[trigger] ops[j]] == x[ops[j]] by {
                assert(reads[j] == ops[j]);
                assert(query::available_at(f, reads[j], d.block));
                assert(ssa::is_known(f, ops[j], a.block, k));
            }
        }
    } else {
        assert(reads[0] == d.on_true.pointer);
        assert(query::available_at(f, reads[0], d.block));
        assert(a.pointer == d.on_true.pointer);
    }
}

/// What the new function has is not changed by the arm.
proof fn lemma_arm_leaves<D, M>(
    f: FuncView,
    g: FuncView,
    m: Meaning<D, M>,
    d: StoreDiamondView,
    a: StoreArmView,
    x: Map<ValueId, D>,
    x0: Map<ValueId, D>,
    y: Map<ValueId, D>,
    memory: M,
)
    requires
        verify::valid(f),
        fits(f),
        shaped(f, g, d),
        f.has_block(a.block),
        a.block == d.on_true.block || a.block == d.on_false.block,
        semantics::alike(x, x0, lacking(f, g)),
        forall|v: ValueId| f.has_value(v) ==> #[trigger] y[v] == x0[v],
    ensures
        semantics::alike(
            semantics::executed(
                m,
                f.block(a.block).insts,
                f.block(a.block).insts.len() as int,
                x,
                memory,
            ).0,
            y,
            lacking(f, g),
        ),
{
    let gone = lacking(f, g);
    let arm = f.block(a.block).insts;
    let k = arm.len() as int;
    let x2 = semantics::executed(m, arm, k, x, memory).0;
    assert forall|v: ValueId| !gone.contains(v) implies #[trigger] x2[v] == y[v] by {
        assert(y[v] == x0[v]);
        assert(x[v] == x0[v]);
        assert forall|i: int|
            0 <= i < arm.len() && (#[trigger] arm[i]).result == Some(v) implies arm[i].kind
            is Nop by {
            if !(arm[i].kind is Nop) {
                assert(f.has_inst(a.block, i));
                assert(f.inst(a.block, i) == arm[i]);
                assert(verify::block_valid(f, a.block));
                assert(verify::inst_valid(f, a.block, i));
                assert(g.inst(a.block, i) == edit::nop());
                assert(g.value(v) == f.value(v));
                assert(f.block(a.block).insts.len() <= usize::MAX);
            }
        }
        lemma_not_computed(m, arm, k, x, memory, v);
    }
}

/// The step of the new function from the head.
#[verifier::rlimit(40)]
proof fn lemma_head_new<D, M>(
    f: FuncView,
    g: FuncView,
    m: Meaning<D, M>,
    d: StoreDiamondView,
    a: StoreArmView,
    data: Map<ValueId, D>,
    memory: M,
    e: Map<ValueId, D>,
    way: bool,
) -> (y: Map<ValueId, D>)
    requires
        verify::valid(f),
        verify::valid(g),
        fits(f),
        m.computes_apart_from_memory(),
        m.has_booleans(),
        m.has_integers(),
        ready(f, d),
        is_converted(f, g, d),
        g.values.len() + 2 <= usize::MAX,
        constants_kept(g, m, data),
        way == (m.truth)(ran(f, m, d.block, data, memory).0[d.cond]),
        a == if way {
            d.on_true
        } else {
            d.on_false
        },
        f.has_block(a.merge),
        a.merge == d.on_true.merge,
        a.merge != d.on_true.block,
        a.merge != d.on_false.block,
        forall|i: int|
            0 <= i < f.block(a.merge).insts.len() ==> !((#[trigger] f.block(
                a.merge,
            ).insts[i]).kind is Phi),
        arm_data(
            f,
            m,
            a,
            d.block,
            ran(f, m, d.block, data, memory).0,
            e,
            ran(f, m, d.block, data, memory).1,
        ),
        e[stored_in(f, a)] == m.integer(
            if worth(m, e, a.value) {
                1
            } else {
                0
            },
        ),
        e[a.pointer] == address(
            m,
            d.on_true,
            ran(f, m, d.block, data, memory).0,
            ran(f, m, d.block, data, memory).1,
        ),
    ensures
        shaped(f, g, d),
        constants_kept(g, m, y),
        forall|v: ValueId|
            f.has_value(v) ==> #[trigger] y[v] == ran(f, m, d.block, data, memory).0[v],
        semantics::step(g, m, State::Running { block: d.block, env: data, memory })
            == (State::Running {
            block: a.merge,
            env: y,
            memory: after_store(
                m,
                e[a.pointer],
                e[stored_in(f, a)],
                ran(f, m, d.block, data, memory).1,
            ),
        }),
{
    let b = d.block;
    let n = f.block(b).insts.len() as int;
    let mem = ran(f, m, b, data, memory).1;
    let merge = f.block(a.merge).insts;
    let (y, ptr, value) = lemma_built(f, g, m, d, data, memory, e, true, way);
    let insts = g.block(b).insts;
    let l = insts.len() as int;
    meaning_laws::lemma_results_are_computed(g);
    meaning_laws::lemma_execution_keeps_constants(g, m, b, l - 1, data, memory);
    assert(y[value] == e[stored_in(f, a)]);
    assert(y[ptr] == e[a.pointer]);
    let mem2 = after_store(m, e[a.pointer], e[stored_in(f, a)], mem);
    let kind = KindView::Store { ptr, value };
    assert(edit::operands(kind).map_values(|v: ValueId| y[v]) =~= seq![y[ptr], y[value]]);
    assert(semantics::executed(m, insts, l, data, memory) == (y, mem2));
    let there = g.block(a.merge).insts;
    assert forall|i: int| 0 <= i < there.len() implies !((#[trigger] there[i]).kind is Phi)
        || there[i].result is None by {
        assert(f.has_block(a.merge));
        if a.merge == b {
            if i < n {
                assert(g.block(b).insts[i] == f.block(b).insts[i]);
                assert(!(merge[i].kind is Phi));
            }
        } else {
            assert(g.block(a.merge) == f.block(a.merge));
            assert(!(merge[i].kind is Phi));
        }
    }
    semantics::lemma_nothing_assigned(there, there.len() as int, b, y);
    assert(semantics::step(g, m, State::Running { block: b, env: data, memory })
        == (State::Running { block: a.merge, env: y, memory: mem2 }));
    y
}

/// From the head, two steps of the old function lead where one step of the new
/// one leads.
#[verifier::rlimit(60)]
proof fn lemma_step_head<D, M>(
    f: FuncView,
    g: FuncView,
    m: Meaning<D, M>,
    d: StoreDiamondView,
    env: Map<ValueId, D>,
    data: Map<ValueId, D>,
    memory: M,
)
    requires
        verify::valid(f),
        verify::valid(g),
        fits(f),
        entered_once(f),
        stores_integers(f),
        m.computes_apart_from_memory(),
        m.has_booleans(),
        m.has_integers(),
        (m.constant)(Const::Zero(Type::I32)) == m.integer(0),
        ready(f, d),
        is_converted(f, g, d),
        g.values.len() + 2 <= usize::MAX,
        side_by_side(f, g, m, lacking(f, g), d.block, 0, env, data),
    ensures
        corresponds(
            f,
            g,
            m,
            d,
            semantics::steps(f, m, State::Running { block: d.block, env, memory }, 2),
            semantics::step(g, m, State::Running { block: d.block, env: data, memory }),
        ),
{
    reveal(corresponds);
    let b = d.block;
    let s = State::Running { block: b, env, memory };
    let gone = lacking(f, g);
    let n = f.block(b).insts.len() as int;
    let (x, mem) = semantics::executed(m, f.block(b).insts, n, env, memory);
    lemma_arms_apart(f, d);
    ssa::lemma_known_at_end(f, m, b, n, env, memory);
    let way0 = (m.truth)(ran(f, m, b, data, memory).0[d.cond]);
    let first = lemma_built(f, g, m, d, data, memory, env, false, way0);
    assert forall|i: int| 0 <= i < n implies (#[trigger] f.block(b).insts[i]).kind is Phi
        || semantics::ignores(f.block(b).insts[i].kind, gone) by {
        assert(f.has_inst(b, i));
        lemma_reads_kept(f, g, d, b, i);
        assert(f.inst(b, i) == f.block(b).insts[i]);
    }
    semantics::lemma_executed_alike(m, f.block(b).insts, n, env, data, memory, gone);
    let (x0, mem0) = ran(f, m, b, data, memory);
    assert(verify::block_valid(f, b));
    query::lemma_terminator_wf(f, b);
    let reads = edit::terminator_reads(f.terminator(b));
    assert(reads[0] == d.cond);
    assert(verify::available(f, reads[0], b, verify::block_end(f, b)));
    lemma_outer_kept(f, g, d, d.cond);
    assert(x[d.cond] == x0[d.cond]);
    let way = (m.truth)(x[d.cond]);
    let a = if way {
        d.on_true
    } else {
        d.on_false
    };
    ssa::lemma_known_on_arrival(f, m, b, a.block, x);
    let arm = f.block(a.block).insts;
    let k = arm.len() as int;
    assert forall|i: int| 0 <= i < arm.len() implies !((#[trigger] arm[i]).kind is Phi)
        || arm[i].result is None by {
        assert(f.has_inst(a.block, i));
        assert(f.inst(a.block, i) == arm[i]);
    }
    semantics::lemma_nothing_assigned(arm, k, b, x);
    lemma_arm_run(f, m, a, b, x, mem);
    lemma_arm_stores(f, m, d, a, x, mem);
    let e = at_store(f, m, a, x, mem);
    let (x2, mem2) = semantics::executed(m, arm, k, x, mem);
    ssa::lemma_known_at_end(f, m, a.block, k, x, mem);
    ssa::lemma_known_on_arrival(f, m, a.block, a.merge, x2);
    let merge = f.block(a.merge).insts;
    assert forall|i: int| 0 <= i < merge.len() implies !((#[trigger] merge[i]).kind is Phi)
        || merge[i].result is None by {
    }
    semantics::lemma_nothing_assigned(merge, merge.len() as int, a.block, x2);
    semantics::lemma_few_steps(f, m, s);
    let s1 = State::Running { block: a.block, env: x, memory: mem };
    let s2 = State::Running { block: a.merge, env: x2, memory: mem2 };
    assert(semantics::step(f, m, s) == s1);
    assert(semantics::step(f, m, s1) == s2);
    // The new function.
    assert(arm_data(f, m, a, b, x0, e, mem0)) by {
        assert forall|o: ValueId| #[trigger] is_outer(f, a.block, b, o) implies x0[o] == e[o] by {
            lemma_outer_kept(f, g, d, o);
            assert(x[o] == x0[o]);
            assert(x[o] == e[o]);
        }
    }
    assert(address(m, d.on_true, x0, mem) == address(m, d.on_true, x, mem)) by {
        let list = boolean_stores::address_reads(d.on_true);
        assert forall|j: int| 0 <= j < list.len() implies x0[#[trigger] list[j]] == x[list[j]] by {
            assert(query::available_at(f, list[j], b));
            lemma_address_read(f, d, j);
            lemma_outer_kept(f, g, d, list[j]);
        }
        if let Some((_, kind)) = d.on_true.gep {
            assert(ssa::data_of(kind, x0) =~= ssa::data_of(kind, x));
        } else {
            assert(list[0] == d.on_true.pointer);
        }
    }
    let y = lemma_head_new(f, g, m, d, a, data, memory, e, way);
    assert(semantics::step(g, m, State::Running { block: b, env: data, memory })
        == (State::Running { block: a.merge, env: y, memory: mem2 }));
    lemma_arm_leaves(f, g, m, d, a, x, x0, y, mem);
}

/// What the address is computed from is defined.
proof fn lemma_address_read(f: FuncView, d: StoreDiamondView, j: int)
    requires
        verify::valid(f),
        fits(f),
        ready(f, d),
        0 <= j < boolean_stores::address_reads(d.on_true).len(),
    ensures
        f.has_value(boolean_stores::address_reads(d.on_true)[j]),
        verify::defined(f, boolean_stores::address_reads(d.on_true)[j]),
{
    let a = d.on_true;
    let v = boolean_stores::address_reads(a)[j];
    assert(verify::block_valid(f, a.block));
    if let Some((at, kind)) = a.gep {
        let i = at as int;
        assert(f.has_inst(a.block, i));
        assert(verify::inst_valid(f, a.block, i));
        query::lemma_inst_wf(f, a.block, i);
        assert(edit::operands(kind)[j] == v);
        assert(verify::available(f, edit::operands(kind)[j], a.block, i));
        if v.0 >= f.values.len() {
            verify::lemma_operand_out_of_range(kind, f.blocks.len(), f.values.len(), j);
        }
    } else {
        let i = a.store_at as int;
        assert(f.has_inst(a.block, i));
        assert(verify::inst_valid(f, a.block, i));
        query::lemma_inst_wf(f, a.block, i);
        let list = edit::operands(f.inst(a.block, i).kind);
        assert(list[0] == v);
        assert(verify::available(f, list[0], a.block, i));
    }
}

/// The two runs are in the same block, outside the arms, or have ended alike.
#[verifier::opaque]
pub open spec fn corresponds<D, M>(
    f: FuncView,
    g: FuncView,
    m: Meaning<D, M>,
    d: StoreDiamondView,
    s: State<D, M>,
    t: State<D, M>,
) -> bool {
    match (s, t) {
        (
            State::Running { block, env, memory },
            State::Running { block: other, env: data, memory: mem },
        ) => block == other && memory == mem && f.has_block(block) && block != d.on_true.block
            && block != d.on_false.block && side_by_side(
            f,
            g,
            m,
            lacking(f, g),
            block,
            0,
            env,
            data,
        ),
        (State::Running { .. }, _) => false,
        (_, State::Running { .. }) => false,
        _ => s == t,
    }
}

pub open spec fn matching<D, M>(
    f: FuncView,
    g: FuncView,
    m: Meaning<D, M>,
    d: StoreDiamondView,
) -> spec_fn(State<D, M>, State<D, M>) -> bool {
    |s: State<D, M>, t: State<D, M>| corresponds(f, g, m, d, s, t)
}

/// A step from another block.
proof fn lemma_step_elsewhere<D, M>(
    f: FuncView,
    g: FuncView,
    m: Meaning<D, M>,
    d: StoreDiamondView,
    block: BlockId,
    env: Map<ValueId, D>,
    data: Map<ValueId, D>,
    memory: M,
)
    requires
        verify::valid(f),
        verify::valid(g),
        fits(f),
        entered_once(f),
        m.computes_apart_from_memory(),
        ready(f, d),
        shaped(f, g, d),
        f.has_block(block),
        block != d.block,
        block != d.on_true.block,
        block != d.on_false.block,
        side_by_side(f, g, m, lacking(f, g), block, 0, env, data),
    ensures
        corresponds(
            f,
            g,
            m,
            d,
            semantics::step(f, m, State::Running { block, env, memory }),
            semantics::step(g, m, State::Running { block, env: data, memory }),
        ),
{
    reveal(corresponds);
    let gone = lacking(f, g);
    let insts = f.block(block).insts;
    let n = insts.len() as int;
    assert(g.block(block) == f.block(block));
    assert forall|i: int| 0 <= i < n implies (#[trigger] insts[i]).kind is Phi
        || semantics::ignores(insts[i].kind, gone) by {
        assert(f.has_inst(block, i));
        lemma_reads_kept(f, g, d, block, i);
        assert(f.inst(block, i) == insts[i]);
    }
    semantics::lemma_executed_alike(m, insts, n, env, data, memory, gone);
    ssa::lemma_known_at_end(f, m, block, n, env, memory);
    meaning_laws::lemma_results_are_computed(g);
    meaning_laws::lemma_execution_keeps_constants(g, m, block, n, data, memory);
    let (x, mem) = semantics::executed(m, insts, n, env, memory);
    let (y, _) = semantics::executed(m, insts, n, data, memory);
    assert(verify::block_valid(f, block) && verify::block_valid(g, block));
    query::lemma_terminator_wf(f, block);
    let reads = edit::terminator_reads(f.terminator(block));
    if reads.len() > 0 {
        assert(verify::available(g, reads[0], block, verify::block_end(g, block)));
        assert(!gone.contains(reads[0]));
        assert(x[reads[0]] == y[reads[0]]);
    }
    match next_block(m, f.terminator(block), x) {
        Some(to) => {
            ssa::lemma_known_on_arrival(f, m, block, to, x);
            threading_laws::lemma_succ(f.terminator(block), to);
            assert(cfg::edge(f, block, to));
            assert(to != d.on_true.block && to != d.on_false.block);
            let p = f.block(to).insts;
            let q = g.block(to).insts;
            let k = p.len() as int;
            assert forall|i: int| 0 <= i < p.len() implies semantics::ignores(
                (#[trigger] p[i]).kind,
                gone,
            ) by {
                assert(f.has_inst(to, i));
                lemma_reads_kept(f, g, d, to, i);
                assert(f.inst(to, i) == p[i]);
            }
            semantics::lemma_assigned_alike(p, k, block, x, y, gone);
            assert(f.has_block(to));
            assert forall|i: int| 0 <= i < k implies #[trigger] q[i] == p[i] by {
                if to == d.block {
                    assert(g.block(to).insts[i] == f.block(to).insts[i]);
                }
            }
            assert(q.len() >= k);
            assert forall|i: int| k <= i < q.len() implies !((#[trigger] q[i]).kind is Phi)
                || q[i].result is None by {
                if to == d.block {
                    assert(!(g.block(to).insts[i].kind is Phi));
                }
            }
            semantics::lemma_assigned_by_prefix(q, k, q.len() as int, block, y);
            semantics::lemma_assigned_in_prefix(q, p, k, block, y);
            meaning_laws::lemma_assignment_keeps_constants(g, m, to, q.len() as int, block, y);
        },
        None => {},
    }
}

/// Storing a boolean without a branch keeps what every call returns, wherever
/// the logical operations are what they are called and a boolean counts as one
/// or zero. Nothing may lead to the entry block, and constants that are stored
/// must be integers.
pub proof fn storing_keeps_the_meaning<D, M>(
    f: FuncView,
    m: Meaning<D, M>,
    args: Map<ValueId, D>,
    memory: M,
    out: State<D, M>,
)
    requires
        verify::valid(f),
        fits(f),
        boolean_stores::store_step(f).0.values.len() + 2 <= usize::MAX,
        entered_once(f),
        stores_integers(f),
        m.computes_apart_from_memory(),
        m.has_booleans(),
        m.has_integers(),
        (m.constant)(Const::Zero(Type::I32)) == m.integer(0),
    ensures
        semantics::yields(boolean_stores::store_step(f).0, m, args, memory, out)
            == semantics::yields(f, m, args, memory, out),
{
    let g = boolean_stores::store_step(f).0;
    lemma_first_diamond(f, 0);
    if boolean_stores::store_step(f).1 {
        let d = boolean_stores::first_diamond(f, 0)->Some_0;
        let rel = matching(f, g, m, d);
        let env0 = semantics::initial(f, m, args);
        let way = (m.truth)(ran(f, m, d.block, env0, memory).0[d.cond]);
        assert(is_converted(f, g, d)) by {
            reveal(is_converted);
        }
        let built = lemma_built(f, g, m, d, env0, memory, env0, false, way);
        assert forall|s: State<D, M>, t: State<D, M>| #[trigger] semantics::caught_up(
            f,
            g,
            m,
            rel,
            s,
            t,
        ) by {
            if rel(s, t) {
                lemma_step(f, g, m, d, s, t);
                let k = choose|k: nat|
                    k >= 1 && corresponds(
                        f,
                        g,
                        m,
                        d,
                        #[trigger] semantics::steps(f, m, s, k),
                        semantics::step(g, m, t),
                    );
                assert(rel(semantics::steps(f, m, s, k), semantics::step(g, m, t)));
            }
        }
        assert(semantics::end_alike(rel)) by {
            reveal(corresponds);
        }
        assert(rel(semantics::start(f, m, args, memory), semantics::start(g, m, args, memory))) by {
            lemma_start(f, g, m, d, args, memory);
        }
        semantics::followers_compute_the_same(f, g, m, rel, args, memory, out);
    }
}

proof fn lemma_start<D, M>(
    f: FuncView,
    g: FuncView,
    m: Meaning<D, M>,
    d: StoreDiamondView,
    args: Map<ValueId, D>,
    memory: M,
)
    requires
        verify::valid(f),
        verify::valid(g),
        fits(f),
        entered_once(f),
        ready(f, d),
        shaped(f, g, d),
    ensures
        corresponds(
            f,
            g,
            m,
            d,
            semantics::start(f, m, args, memory),
            semantics::start(g, m, args, memory),
        ),
{
    reveal(corresponds);
    ssa::lemma_known_at_start(f, m, args);
    meaning_laws::lemma_targets(f, d.block);
    assert(cfg::edge(f, d.block, d.on_true.block));
    assert(cfg::edge(f, d.block, d.on_false.block));
    let x = semantics::initial(f, m, args);
    let y = semantics::initial(g, m, args);
    assert forall|v: ValueId| !lacking(f, g).contains(v) implies #[trigger] x[v] == y[v] by {
        assert(g.value(v) == f.value(v));
    }
}

proof fn lemma_step<D, M>(
    f: FuncView,
    g: FuncView,
    m: Meaning<D, M>,
    d: StoreDiamondView,
    s: State<D, M>,
    t: State<D, M>,
)
    requires
        verify::valid(f),
        verify::valid(g),
        fits(f),
        entered_once(f),
        stores_integers(f),
        m.computes_apart_from_memory(),
        m.has_booleans(),
        m.has_integers(),
        (m.constant)(Const::Zero(Type::I32)) == m.integer(0),
        ready(f, d),
        shaped(f, g, d),
        is_converted(f, g, d),
        g.values.len() + 2 <= usize::MAX,
        corresponds(f, g, m, d, s, t),
    ensures
        exists|k: nat|
            k >= 1 && corresponds(
                f,
                g,
                m,
                d,
                #[trigger] semantics::steps(f, m, s, k),
                semantics::step(g, m, t),
            ),
{
    semantics::lemma_few_steps(f, m, s);
    assert(s is Running ==> t is Running) by {
        reveal(corresponds);
    }
    match (s, t) {
        (
            State::Running { block, env, memory },
            State::Running { block: other, env: data, memory: mem },
        ) => {
            assert(block == other && memory == mem && f.has_block(block) && block
                != d.on_true.block && block != d.on_false.block && side_by_side(
                f,
                g,
                m,
                lacking(f, g),
                block,
                0,
                env,
                data,
            )) by {
                reveal(corresponds);
            }
            if block == d.block {
                lemma_step_head(f, g, m, d, env, data, memory);
                assert(corresponds(
                    f,
                    g,
                    m,
                    d,
                    semantics::steps(f, m, s, 2),
                    semantics::step(g, m, t),
                ));
            } else {
                lemma_step_elsewhere(f, g, m, d, block, env, data, memory);
                assert(corresponds(
                    f,
                    g,
                    m,
                    d,
                    semantics::steps(f, m, s, 1),
                    semantics::step(g, m, t),
                ));
            }
        },
        _ => {
            assert(corresponds(
                f,
                g,
                m,
                d,
                semantics::steps(f, m, s, 1),
                semantics::step(g, m, t),
            )) by {
                reveal(corresponds);
            }
        },
    }
}

} // verus!
