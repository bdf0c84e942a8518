//! Zeroing an array at once keeps what a function computes.
use vstd::prelude::*;

use crate::cfg;
use crate::edit;
use crate::emit;
use crate::ir::{
    BlockId, CompareOp, Const, FuncView, InstView, KindView, Terminator, ValueId, ValueKindView,
};
use crate::loops;
use crate::loops::LoopView;
use crate::pass::idiom_laws;
use crate::pass::idiom_laws::is_closed_loop;
use crate::pass::loop_idiom;
use crate::pass::loop_idiom::What;
use crate::pass::loop_memset;
use crate::pass::loop_memset::Plan;
use crate::pass::odd_chain_group::run_laws::is_arithmetic;
use crate::pass::range_integer::laws::{lemma_const_number, of_compare};
use crate::pass::simplify_cfg::meaning_laws;
use crate::pass::simplify_cfg::meaning_laws::constants_kept;
use crate::pass::simplify_cfg::select_laws::entered_once;
use crate::pass::simplify_cfg::store_laws::after_store;
use crate::pass::simplify_cfg::threading_laws;
use crate::pass::simplify_cfg::threading_laws::fits;
use crate::pass::wrapper_laws;
use crate::query;
use crate::semantics;
use crate::semantics::{alike, Meaning, State};
use crate::ssa;
use crate::ssa::one;
use crate::util;
use crate::verify;

verus! {

// ---------------------------------------------------------------------------
// The instructions of the loop
// ---------------------------------------------------------------------------

/// Where the instructions of the loop stand.
pub struct Places {
    pub phi: int,
    pub condition: int,
    pub address: int,
    pub store: int,
    pub next: int,
}

/// What stands in the loop.
pub open spec fn is_filled(f: FuncView, p: Plan, stored: ValueId, at: Places) -> bool {
    let fr = p.frame;
    let iv = fr.induction;
    let head = f.block(fr.header).insts;
    let body = f.block(fr.body).insts;
    &&& 0 <= at.phi < head.len()
    &&& 0 <= at.condition < head.len()
    &&& at.phi != at.condition
    &&& head[at.phi].result == Some(iv.phi)
    &&& head[at.phi].kind is Phi
    &&& util::incoming_from(head[at.phi].kind->Phi_incomings, fr.preheader) == Some(iv.initial)
    &&& util::incoming_from(head[at.phi].kind->Phi_incomings, fr.body) == Some(iv.next)
    &&& head[at.condition] == (InstView {
        result: Some(fr.condition),
        kind: KindView::ICompare { op: CompareOp::Lt, lhs: iv.phi, rhs: fr.bound },
    })
    &&& forall|i: int|
        0 <= i < head.len() && i != at.phi && i != at.condition ==> (#[trigger] head[i]).kind is Nop
    &&& 0 <= at.address < at.store < body.len()
    &&& 0 <= at.next < body.len()
    &&& at.next != at.address
    &&& at.next != at.store
    &&& at.store == p.store_index
    &&& body[at.address] == (InstView {
        result: Some(p.address),
        kind: KindView::Gep { base: p.base, indices: seq![iv.phi] },
    })
    &&& body[at.store].kind == (KindView::Store { ptr: p.address, value: stored })
    &&& body[at.store].result is None
    &&& body[at.next].result == Some(iv.next)
    &&& loops::step_of(f, body[at.next].kind, iv.phi) == Some(1i32)
    &&& forall|i: int|
        0 <= i < body.len() && i != at.address && i != at.store && i != at.next ==> (
        #[trigger] body[i]).kind is Nop
}

/// Stores have no results.
pub open spec fn stores_give_nothing(f: FuncView) -> bool {
    forall|b: BlockId, i: int|
        f.has_inst(b, i) && (#[trigger] f.inst(b, i)).kind is Store ==> f.inst(b, i).result is None
}

/// The value does not change in the loop.
pub open spec fn is_outer(f: FuncView, p: Plan, v: ValueId) -> bool {
    &&& f.has_value(v)
    &&& v != p.frame.induction.phi
    &&& v != p.frame.induction.next
    &&& v != p.frame.condition
    &&& v != p.address
}

/// The store is found where it stands.
proof fn lemma_store_from(insts: Seq<InstView>, k: int)
    requires
        0 <= k <= insts.len() <= usize::MAX,
    ensures
        loop_idiom::store_from(insts, k) matches Some((i, ptr, value)) ==> k <= i < insts.len()
            && insts[i as int].kind == (KindView::Store { ptr, value }),
    decreases insts.len() - k,
{
    if k < insts.len() {
        lemma_store_from(insts, k + 1);
    }
}

/// The place of a result in a valid function.
pub proof fn lemma_result(f: FuncView, b: BlockId, i: int, v: ValueId)
    requires
        verify::valid(f),
        f.has_block(b),
        0 <= i < f.block(b).insts.len(),
        f.block(b).insts[i].result == Some(v),
    ensures
        f.has_value(v),
        f.value(v).kind == ValueKindView::Inst(b, i as usize),
        f.has_inst(b, i),
{
    assert(verify::block_valid(f, b));
    assert(verify::inst_valid(f, b, i));
    assert(f.has_inst(b, i));
    query::lemma_inst_wf(f, b, i);
}

#[verifier::rlimit(40)]
proof fn lemma_filled(f: FuncView, l: LoopView, p: Plan) -> (r: (ValueId, Places))
    requires
        verify::valid(f),
        fits(f),
        entered_once(f),
        stores_give_nothing(f),
        f.has_block(l.header),
        l == loops::loop_at(f, l.header),
        loop_memset::plan_at(f, l) == Some(p),
    ensures
        is_closed_loop(f, p.frame),
        is_filled(f, p, r.0, r.1),
        f.has_value(r.0),
        loop_memset::is_zero(f, r.0),
        is_outer(f, p, r.0),
        is_outer(f, p, p.base),
        is_outer(f, p, p.frame.bound),
        is_outer(f, p, p.frame.induction.initial),
        util::const_i32_of(f, p.frame.induction.initial) == Some(0i32),
{
    let fr = p.frame;
    let iv = fr.induction;
    idiom_laws::lemma_closed_loop(f, l, fr);
    let head = f.block(fr.header).insts;
    let body = f.block(fr.body).insts;
    assert(head.len() <= usize::MAX && body.len() <= usize::MAX) by {
        assert(f.has_block(fr.header) && f.has_block(fr.body));
    }
    let phi = choose|i: int|
        0 <= i < head.len() && (#[trigger] f.inst(fr.header, i)).result == Some(iv.phi)
            && loop_idiom::kind_is(f.inst(fr.header, i).kind, What::Phi);
    let condition = choose|i: int|
        0 <= i < head.len() && (#[trigger] f.inst(fr.header, i)).result == Some(fr.condition)
            && loop_idiom::kind_is(f.inst(fr.header, i).kind, What::Comparison);
    assert(head[phi] == f.inst(fr.header, phi) && head[condition] == f.inst(fr.header, condition));
    lemma_result(f, fr.header, phi, iv.phi);
    lemma_result(f, fr.header, condition, fr.condition);
    let address = choose|i: int|
        0 <= i < body.len() && (#[trigger] f.inst(fr.body, i)).result == Some(p.address)
            && loop_idiom::kind_is(f.inst(fr.body, i).kind, What::Element);
    let next = choose|i: int|
        0 <= i < body.len() && (#[trigger] f.inst(fr.body, i)).result == Some(iv.next)
            && loop_idiom::kind_is(f.inst(fr.body, i).kind, What::Binary);
    assert(body[address] == f.inst(fr.body, address) && body[next] == f.inst(fr.body, next));
    lemma_result(f, fr.body, address, p.address);
    lemma_result(f, fr.body, next, iv.next);
    lemma_store_from(body, 0);
    let (index, ptr, stored) = loop_idiom::store_from(body, 0)->Some_0;
    let store = index as int;
    let at = Places { phi, condition, address, store, next };
    assert forall|i: int| 0 <= i < head.len() && i != phi && i != condition implies (
    #[trigger] head[i]).kind is Nop by {
        idiom_laws::lemma_others_idle(head, seq![phi, condition], i);
    }
    assert forall|i: int| 0 <= i < body.len() && i != address && i != store && i != next implies (
    #[trigger] body[i]).kind is Nop by {
        idiom_laws::lemma_others_idle(body, seq![address, store, next], i);
    }
    assert(verify::block_valid(f, fr.body));
    assert(verify::inst_valid(f, fr.body, store));
    assert(f.inst(fr.body, store) == body[store]);
    assert(address < store) by {
        let list = edit::operands(body[store].kind);
        assert(list[0] == p.address);
        assert(verify::available(f, list[0], fr.body, store));
    }
    assert(f.has_inst(fr.body, store));
    query::lemma_inst_wf(f, fr.body, store);
    query::lemma_inst_wf(f, fr.body, address);
    query::lemma_inst_wf(f, fr.header, condition);
    assert(f.has_value(stored)) by {
        assert(edit::operands(body[store].kind)[1] == stored);
    }
    assert(f.has_value(p.base)) by {
        assert(edit::operands(body[address].kind)[0] == p.base);
    }
    assert(f.has_value(fr.bound)) by {
        assert(edit::operands(head[condition].kind)[1] == fr.bound);
    }
    (stored, at)
}

// ---------------------------------------------------------------------------
// The loop
// ---------------------------------------------------------------------------

/// The address of an element.
pub open spec fn element<D, M>(m: Meaning<D, M>, base: D, index: D, memory: M) -> D {
    m.result(
        KindView::Gep { base: ValueId(0), indices: seq![ValueId(0)] },
        seq![base, index],
        memory,
    )
}

/// The memory after the datum is stored in the elements from `i` up to `n`.
pub open spec fn stored_from<D, M>(
    m: Meaning<D, M>,
    base: D,
    datum: D,
    i: int,
    n: int,
    memory: M,
) -> M
    decreases n - i,
{
    if i >= n {
        memory
    } else {
        let place = element(m, base, m.integer(i as i32), memory);
        stored_from(m, base, datum, i + 1, n, after_store(m, place, datum, memory))
    }
}

/// The memory after as many elements are zeroed as the count says.
pub open spec fn zeroed<D, M>(m: Meaning<D, M>, place: D, count: D, memory: M) -> M {
    (m.apply)(
        semantics::shape(
            KindView::MemZero {
                ptr: ValueId(0),
                bytes: loop_idiom::ELEMENT_BYTES,
                count: Some(ValueId(0)),
            },
        ),
        seq![place, count],
        memory,
    ).1
}

/// The constant is a zero.
pub open spec fn is_zero_constant(c: Const) -> bool {
    match c {
        Const::Int(i) => i == 0,
        Const::Bool(b) => !b,
        Const::Float(bits) => bits == 0,
        Const::Zero(_) => true,
    }
}

/// Zeroing elements at once is storing a zero in one after the other, where the
/// elements are scalars.
pub open spec fn zeroes_elements<D, M>(
    m: Meaning<D, M>,
    number: spec_fn(D) -> i32,
    scalars: spec_fn(D) -> bool,
) -> bool {
    forall|base: D, count: D, c: Const, z: M, x: M|
        scalars(base) && is_zero_constant(c) && number(count) >= 0 ==> #[trigger] zeroed(
            m,
            element(m, base, m.integer(0), z),
            count,
            x,
        ) == stored_from(m, base, #[trigger] (m.constant)(c), 0, number(count) as int, x)
}

/// What the loop computes and nothing behind it reads.
pub open spec fn loop_values(f: FuncView, p: Plan) -> Set<ValueId> {
    set![
        p.frame.induction.phi,
        p.frame.induction.next,
        p.frame.condition,
        p.address,
        f.next_value(),
    ]
}

/// What holds of the loop.
pub open spec fn is_ready<D, M>(
    f: FuncView,
    m: Meaning<D, M>,
    number: spec_fn(D) -> i32,
    p: Plan,
    stored: ValueId,
    at: Places,
) -> bool {
    &&& verify::valid(f)
    &&& fits(f)
    &&& f.values.len() < usize::MAX
    &&& is_closed_loop(f, p.frame)
    &&& is_filled(f, p, stored, at)
    &&& is_outer(f, p, stored)
    &&& is_outer(f, p, p.base)
    &&& is_outer(f, p, p.frame.bound)
    &&& is_outer(f, p, p.frame.induction.initial)
    &&& loop_memset::is_zero(f, stored)
    &&& util::const_i32_of(f, p.frame.induction.initial) == Some(0i32)
    &&& is_arithmetic(m, number)
    &&& f.has_value(p.frame.induction.phi)
    &&& f.has_value(p.frame.induction.next)
    &&& f.has_value(p.frame.condition)
    &&& f.has_value(p.address)
}

/// Arrival at the header sets the counter.
proof fn lemma_enter_header<D, M>(
    f: FuncView,
    m: Meaning<D, M>,
    number: spec_fn(D) -> i32,
    p: Plan,
    stored: ValueId,
    at: Places,
    pred: BlockId,
    e: Map<ValueId, D>,
)
    requires
        is_ready(f, m, number, p, stored, at),
        pred == p.frame.preheader || pred == p.frame.body,
    ensures
        ({
            let insts = f.block(p.frame.header).insts;
            let w = if pred == p.frame.body {
                p.frame.induction.next
            } else {
                p.frame.induction.initial
            };
            semantics::phis_assigned(insts, insts.len() as int, pred, e) == e.insert(
                p.frame.induction.phi,
                e[w],
            )
        }),
{
    let insts = f.block(p.frame.header).insts;
    let k = at.phi;
    let upto = insts.take(k);
    semantics::lemma_nothing_assigned(upto, k, pred, e);
    semantics::lemma_assigned_in_prefix(insts, upto, k, pred, e);
    let w = if pred == p.frame.body {
        p.frame.induction.next
    } else {
        p.frame.induction.initial
    };
    assert(semantics::phis_assigned(insts, k + 1, pred, e) == e.insert(
        p.frame.induction.phi,
        e[w],
    ));
    semantics::lemma_assigned_by_prefix(insts, k + 1, insts.len() as int, pred, e);
}

/// The header compares the counter with the bound.
proof fn lemma_run_header<D, M>(
    f: FuncView,
    m: Meaning<D, M>,
    number: spec_fn(D) -> i32,
    p: Plan,
    stored: ValueId,
    at: Places,
    e: Map<ValueId, D>,
    x: M,
)
    requires
        is_ready(f, m, number, p, stored, at),
    ensures
        ({
            let fr = p.frame;
            let insts = f.block(fr.header).insts;
            let d = of_compare(
                m,
                CompareOp::Lt,
                fr.induction.phi,
                fr.bound,
                e[fr.induction.phi],
                e[fr.bound],
                x,
            );
            semantics::executed(m, insts, insts.len() as int, e, x) == (
                e.insert(fr.condition, d),
                x,
            )
        }),
{
    let fr = p.frame;
    let insts = f.block(fr.header).insts;
    idiom_laws::lemma_single(m, insts, at.condition, e, x);
    wrapper_laws::lemma_compare_one(
        m,
        fr.condition.0 as int,
        CompareOp::Lt,
        fr.induction.phi,
        fr.bound,
        e,
        x,
    );
}

/// The body stores a zero and counts.
#[verifier::rlimit(40)]
proof fn lemma_run_body<D, M>(
    f: FuncView,
    m: Meaning<D, M>,
    number: spec_fn(D) -> i32,
    p: Plan,
    stored: ValueId,
    at: Places,
    e: Map<ValueId, D>,
    x: M,
    i: int,
) -> (r: Map<ValueId, D>)
    requires
        is_ready(f, m, number, p, stored, at),
        constants_kept(f, m, e),
        number(e[p.frame.induction.phi]) == i,
        i < i32::MAX,
    ensures
        ({
            let fr = p.frame;
            let insts = f.block(fr.body).insts;
            let place = element(m, e[p.base], e[fr.induction.phi], x);
            &&& semantics::executed(m, insts, insts.len() as int, e, x) == (
                r,
                after_store(m, place, e[stored], x),
            )
            &&& r[fr.induction.next] == m.integer((i + 1) as i32)
            &&& alike(e, r, set![fr.induction.next, p.address])
        }),
{
    let fr = p.frame;
    let iv = fr.induction;
    let insts = f.block(fr.body).insts;
    let place = element(m, e[p.base], e[iv.phi], x);
    let gep = insts[at.address];
    let next = insts[at.next];
    let put = insts[at.store];
    let counted = m.integer((i + 1) as i32);
    assert forall|u: Map<ValueId, D>, z: M|
        u[p.base] == e[p.base] && u[iv.phi] == e[iv.phi] implies #[trigger] one(m, gep, u, z) == (
        u.insert(p.address, place),
        z,
    ) by {
        assert(ssa::data_of(gep.kind, u) =~= seq![e[p.base], e[iv.phi]]);
        let g = |v: ValueId| ValueId(0);
        assert(seq![iv.phi].map_values(g) =~= seq![ValueId(0)].map_values(g));
        assert(semantics::is_plain(semantics::shape(gep.kind)));
    }
    assert forall|u: Map<ValueId, D>, z: M|
        u[iv.phi] == e[iv.phi] && constants_kept(f, m, u) implies #[trigger] one(m, next, u, z) == (
        u.insert(iv.next, counted),
        z,
    ) by {
        lemma_count(f, m, number, next.kind, iv.phi, u, z, i);
    }
    assert forall|u: Map<ValueId, D>, z: M|
        u[p.address] == place && u[stored] == e[stored] implies #[trigger] one(m, put, u, z) == (
        u,
        after_store(m, place, e[stored], z),
    ) by {
        assert(ssa::data_of(put.kind, u) =~= seq![place, e[stored]]);
    }
    assert(p.address != iv.next && p.address != iv.phi && iv.next != iv.phi) by {
        lemma_result(f, fr.header, at.phi, iv.phi);
        lemma_result(f, fr.body, at.address, p.address);
        lemma_result(f, fr.body, at.next, iv.next);
    }
    let u1 = e.insert(p.address, place);
    let u2 = e.insert(iv.next, counted);
    let r = u1.insert(iv.next, counted);
    assert(r =~= u2.insert(p.address, place));
    assert(constants_kept(f, m, u1)) by {
        assert(f.value(p.address).kind is Inst) by {
            lemma_result(f, fr.body, at.address, p.address);
        }
    }
    assert(one(m, gep, e, x) == (u1, x) && one(m, next, u1, x) == (r, x));
    assert(one(m, next, e, x) == (u2, x) && one(m, gep, u2, x) == (r, x));
    let y = after_store(m, place, e[stored], x);
    assert(one(m, put, r, x) == (r, y) && one(m, put, u1, x) == (u1, y));
    assert(one(m, next, u1, y) == (r, y));
    if at.next < at.address {
        idiom_laws::lemma_three(m, insts, at.next, at.address, at.store, e, x);
    } else if at.next < at.store {
        idiom_laws::lemma_three(m, insts, at.address, at.next, at.store, e, x);
    } else {
        idiom_laws::lemma_three(m, insts, at.address, at.store, at.next, e, x);
    }
    r
}

/// The next counter is one more.
pub proof fn lemma_count<D, M>(
    f: FuncView,
    m: Meaning<D, M>,
    number: spec_fn(D) -> i32,
    kind: KindView,
    phi: ValueId,
    e: Map<ValueId, D>,
    x: M,
    i: int,
)
    requires
        is_arithmetic(m, number),
        loops::step_of(f, kind, phi) == Some(1i32),
        constants_kept(f, m, e),
        number(e[phi]) == i,
        i < i32::MAX,
    ensures
        (m.apply)(semantics::shape(kind), ssa::data_of(kind, e), x) == (
            m.integer((i + 1) as i32),
            x,
        ),
{
    if let KindView::Binary { op, lhs, rhs } = kind {
        assert(ssa::data_of(kind, e) =~= seq![e[lhs], e[rhs]]);
        lemma_const_number(f, m, number, e, lhs);
        lemma_const_number(f, m, number, e, rhs);
        assert(semantics::is_plain(semantics::shape(kind)));
        assert((m.apply)(semantics::shape(kind), ssa::data_of(kind, e), x).0 == m.of_two(
            op,
            lhs,
            rhs,
            e[lhs],
            e[rhs],
            x,
        ));
    }
}

/// The loop, from its body on with the counter at `i`, stores zeros up to the
/// bound and leaves.
proof fn lemma_run_loop<D, M>(
    f: FuncView,
    m: Meaning<D, M>,
    number: spec_fn(D) -> i32,
    p: Plan,
    stored: ValueId,
    at: Places,
    e: Map<ValueId, D>,
    x: M,
    i: int,
) -> (r: (nat, Map<ValueId, D>))
    requires
        is_ready(f, m, number, p, stored, at),
        exit_is_plain(f, p),
        constants_kept(f, m, e),
        e[p.frame.induction.phi] == m.integer(i as i32),
        0 <= i < number(e[p.frame.bound]),
    ensures
        r.0 >= 1,
        semantics::steps(f, m, State::Running { block: p.frame.body, env: e, memory: x }, r.0)
            == (State::Running {
            block: p.frame.exit,
            env: r.1,
            memory: stored_from(
                m,
                e[p.base],
                e[stored],
                i,
                number(e[p.frame.bound]) as int,
                x,
            ),
        }),
        constants_kept(f, m, r.1),
        alike(e, r.1, loop_values(f, p)),
    decreases number(e[p.frame.bound]) - i,
{
    let fr = p.frame;
    let iv = fr.induction;
    let s = State::Running { block: fr.body, env: e, memory: x };
    let n = number(e[fr.bound]) as int;
    assert(number(m.integer(i as i32)) == i);
    let e1 = lemma_run_body(f, m, number, p, stored, at, e, x, i);
    let place = element(m, e[p.base], e[iv.phi], x);
    let x1 = after_store(m, place, e[stored], x);
    meaning_laws::lemma_results_are_computed(f);
    meaning_laws::lemma_execution_keeps_constants(
        f,
        m,
        fr.body,
        f.block(fr.body).insts.len() as int,
        e,
        x,
    );
    lemma_enter_header(f, m, number, p, stored, at, fr.body, e1);
    let e2 = e1.insert(iv.phi, e1[iv.next]);
    meaning_laws::lemma_assignment_keeps_constants(
        f,
        m,
        fr.header,
        f.block(fr.header).insts.len() as int,
        fr.body,
        e1,
    );
    let s1 = State::Running { block: fr.header, env: e2, memory: x1 };
    assert(semantics::step(f, m, s) == s1);
    lemma_run_header(f, m, number, p, stored, at, e2, x1);
    let d = of_compare(m, CompareOp::Lt, iv.phi, fr.bound, e2[iv.phi], e2[fr.bound], x1);
    let e3 = e2.insert(fr.condition, d);
    meaning_laws::lemma_execution_keeps_constants(
        f,
        m,
        fr.header,
        f.block(fr.header).insts.len() as int,
        e2,
        x1,
    );
    assert(alike(e, e3, loop_values(f, p)));
    assert(e3[p.base] == e[p.base] && e3[stored] == e[stored] && e3[fr.bound] == e[fr.bound]);
    assert(number(m.integer((i + 1) as i32)) == i + 1);
    assert((m.truth)(d) == (i + 1 < n));
    lemma_distinct(f, m, number, p, stored, at);
    semantics::lemma_few_steps(f, m, s);
    if i + 1 < n {
        let body = f.block(fr.body).insts;
        assert forall|k: int| 0 <= k < body.len() implies !((#[trigger] body[k]).kind is Phi) by {
        }
        semantics::lemma_nothing_assigned(body, body.len() as int, fr.header, e3);
        let s2 = State::Running { block: fr.body, env: e3, memory: x1 };
        assert(semantics::step(f, m, s1) == s2);
        let (k, last) = lemma_run_loop(f, m, number, p, stored, at, e3, x1, i + 1);
        semantics::lemma_steps_add(f, m, s, 2, k);
        (2 + k, last)
    } else {
        let exit = f.block(fr.exit).insts;
        semantics::lemma_nothing_assigned(exit, exit.len() as int, fr.header, e3);
        assert(stored_from(m, e[p.base], e[stored], i + 1, n, x1) == x1);
        (2, e3)
    }
}

/// No phi at the exit defines a value.
pub open spec fn exit_is_plain(f: FuncView, p: Plan) -> bool {
    forall|i: int|
        0 <= i < f.block(p.frame.exit).insts.len() ==> !((#[trigger] f.block(
            p.frame.exit,
        ).insts[i]).kind is Phi) || f.block(p.frame.exit).insts[i].result is None
}

/// The values of the loop differ from each other.
proof fn lemma_distinct<D, M>(
    f: FuncView,
    m: Meaning<D, M>,
    number: spec_fn(D) -> i32,
    p: Plan,
    stored: ValueId,
    at: Places,
)
    requires
        is_ready(f, m, number, p, stored, at),
    ensures
        p.frame.induction.phi != p.frame.condition,
        p.frame.induction.phi != p.frame.induction.next,
        p.frame.induction.phi != p.address,
        p.frame.condition != p.frame.induction.next,
        p.frame.condition != p.address,
        p.address != p.frame.induction.next,
{
    lemma_result(f, p.frame.header, at.phi, p.frame.induction.phi);
    lemma_result(f, p.frame.header, at.condition, p.frame.condition);
    lemma_result(f, p.frame.body, at.address, p.address);
    lemma_result(f, p.frame.body, at.next, p.frame.induction.next);
}

// ---------------------------------------------------------------------------
// The function with the loop replaced
// ---------------------------------------------------------------------------

/// What the new function consists of.
pub open spec fn is_replaced(f: FuncView, g: FuncView, p: Plan, at: Places) -> bool {
    let fr = p.frame;
    let head = g.block(fr.header).insts;
    let body = g.block(fr.body).insts;
    let n = f.block(fr.body).insts.len() as int;
    &&& g.entry == f.entry
    &&& g.params == f.params
    &&& g.blocks.len() == f.blocks.len()
    &&& g.values.len() == f.values.len() + 1
    &&& forall|v: ValueId| f.has_value(v) ==> #[trigger] g.value(v) == f.value(v)
    &&& forall|b: BlockId|
        f.has_block(b) && b != fr.header && b != fr.body ==> #[trigger] g.block(b) == f.block(b)
    &&& g.terminator(fr.header) == f.terminator(fr.header)
    &&& g.terminator(fr.body) == Some(Terminator::Jump(fr.exit))
    &&& head.len() == f.block(fr.header).insts.len()
    &&& head[at.condition] == (InstView {
        result: Some(fr.condition),
        kind: KindView::ICompare {
            op: CompareOp::Lt,
            lhs: fr.induction.initial,
            rhs: fr.bound,
        },
    })
    &&& forall|i: int|
        0 <= i < head.len() && i != at.condition ==> (#[trigger] head[i]).kind is Nop
    &&& body.len() == n + 2
    &&& forall|i: int| 0 <= i < n ==> (#[trigger] body[i]).kind is Nop
    &&& body[n] == (InstView {
        result: Some(f.next_value()),
        kind: loop_memset::first_element(p),
    })
    &&& body[n + 1] == (InstView {
        result: None,
        kind: loop_memset::zeroing(p, f.next_value()),
    })
}

pub proof fn lemma_first_defining(insts: Seq<InstView>, v: ValueId, k: int, i: int)
    requires
        0 <= k <= i < insts.len(),
        insts[i].result == Some(v),
        forall|j: int| 0 <= j < insts.len() && j != i ==> (#[trigger] insts[j]).result != Some(v),
    ensures
        loop_idiom::first_defining(insts, v, k) == Some(i),
    decreases i - k,
{
    if k < i {
        lemma_first_defining(insts, v, k + 1, i);
    }
}

#[verifier::rlimit(60)]
proof fn lemma_replaced<D, M>(
    f: FuncView,
    m: Meaning<D, M>,
    number: spec_fn(D) -> i32,
    p: Plan,
    stored: ValueId,
    at: Places,
)
    requires
        is_ready(f, m, number, p, stored, at),
    ensures
        is_replaced(f, loop_memset::replaced(f, p), p, at),
{
    reveal(emit::refilled);
    reveal(emit::emitted);
    reveal(emit::effected);
    reveal(emit::ended);
    let fr = p.frame;
    let g = loop_memset::replaced(f, p);
    let head = f.block(fr.header).insts;
    lemma_distinct(f, m, number, p, stored, at);
    let kept = Seq::new(
        head.len(),
        |i: int|
            if head[i].result == Some(fr.induction.phi) {
                edit::nop()
            } else {
                head[i]
            },
    );
    assert(kept[at.condition] == head[at.condition]);
    assert forall|j: int| 0 <= j < kept.len() && j != at.condition implies (
    #[trigger] kept[j]).result != Some(fr.condition) by {
        if head[j].result == Some(fr.condition) {
            lemma_result(f, fr.header, j, fr.condition);
            lemma_result(f, fr.header, at.condition, fr.condition);
        }
    }
    lemma_first_defining(kept, fr.condition, 0, at.condition);
    assert(loop_memset::header_insts(f, p) == kept.update(
        at.condition,
        InstView {
            result: Some(fr.condition),
            kind: KindView::ICompare {
                op: CompareOp::Lt,
                lhs: fr.induction.initial,
                rhs: fr.bound,
            },
        },
    ));
    let f1 = emit::refilled(f, fr.header.0, loop_memset::header_insts(f, p));
    let f2 = emit::refilled(f1, fr.body.0, loop_memset::body_insts(f, p));
    assert(f2.next_value() == f.next_value());
    assert(g.block(fr.header).insts == loop_memset::header_insts(f, p));
    let body = f.block(fr.body).insts;
    let n = body.len() as int;
    let after = g.block(fr.body).insts;
    assert forall|i: int| 0 <= i < n implies (#[trigger] after[i]).kind is Nop by {
        assert(after[i] == loop_memset::body_insts(f, p)[i]);
        if i != at.address && i != at.store && i != at.next {
            assert(body[i].kind is Nop);
        }
    }
    let now = g.block(fr.header).insts;
    assert forall|i: int| 0 <= i < now.len() && i != at.condition implies (#[trigger] now[i]).kind
        is Nop by {
        assert(now[i] == kept[i]);
        if i != at.phi {
            assert(head[i].kind is Nop);
        }
    }
}

// ---------------------------------------------------------------------------
// Both functions side by side
// ---------------------------------------------------------------------------

/// The terminator reads no value of the set.
pub open spec fn end_ignores(t: Option<Terminator>, unread: Set<ValueId>) -> bool {
    match t {
        Some(Terminator::Return(Some(v))) => !unread.contains(v),
        Some(Terminator::Branch { cond, .. }) => !unread.contains(cond),
        _ => true,
    }
}

/// Outside of the loop nothing reads its values.
pub open spec fn is_unread(f: FuncView, p: Plan) -> bool {
    &&& forall|b: BlockId, i: int|
        f.has_inst(b, i) && b != p.frame.header && b != p.frame.body ==> semantics::ignores(
            (#[trigger] f.inst(b, i)).kind,
            loop_values(f, p),
        )
    &&& forall|b: BlockId|
        f.has_block(b) && b != p.frame.header && b != p.frame.body ==> end_ignores(
            #[trigger] f.terminator(b),
            loop_values(f, p),
        )
}

proof fn lemma_unread(f: FuncView, l: LoopView, p: Plan)
    requires
        f.wf(),
        f.values.len() < usize::MAX,
        forall|b: BlockId| f.has_block(b) ==> (#[trigger] l.has(b) <==> b == p.frame.header || b
            == p.frame.body),
        !loop_idiom::is_read_outside(f, l, p.frame.induction.phi),
        !loop_idiom::is_read_outside(f, l, p.frame.induction.next),
        !loop_idiom::is_read_outside(f, l, p.frame.condition),
        !loop_idiom::is_read_outside(f, l, p.address),
    ensures
        is_unread(f, p),
{
    let unread = loop_values(f, p);
    assert forall|b: BlockId, i: int|
        f.has_inst(b, i) && b != p.frame.header && b != p.frame.body implies semantics::ignores(
        (#[trigger] f.inst(b, i)).kind,
        unread,
    ) by {
        assert(f.has_block(b) && !l.has(b));
        query::lemma_inst_wf(f, b, i);
        let kind = f.inst(b, i).kind;
        let list = edit::operands(kind);
        assert forall|k: int| 0 <= k < list.len() implies !unread.contains(#[trigger] list[k]) by {
            let v = list[k];
            assert(list.contains(v));
            assert(loop_idiom::block_reads(f, b, v));
            lemma_operand_exists(f, kind, k);
        }
    }
    assert forall|b: BlockId|
        f.has_block(b) && b != p.frame.header && b != p.frame.body implies end_ignores(
        #[trigger] f.terminator(b),
        unread,
    ) by {
        assert(!l.has(b));
        query::lemma_terminator_wf(f, b);
        let list = edit::terminator_reads(f.terminator(b));
        match f.terminator(b) {
            Some(Terminator::Return(Some(v))) => {
                assert(list[0] == v);
                assert(loop_idiom::block_reads(f, b, v));
            },
            Some(Terminator::Branch { cond, .. }) => {
                assert(list[0] == cond);
                assert(loop_idiom::block_reads(f, b, cond));
            },
            _ => {},
        }
    }
}

pub proof fn lemma_operand_exists(f: FuncView, kind: KindView, k: int)
    requires
        edit::kind_wf(kind, f.blocks.len(), f.values.len()),
        0 <= k < edit::operands(kind).len(),
    ensures
        f.has_value(edit::operands(kind)[k]),
{
    if let KindView::Phi { incomings } = kind {
        assert(edit::operands(kind)[k] == incomings[k].1);
    }
}

/// The exit has one more predecessor in the new function, so it has no phi.
proof fn lemma_exit_plain<D, M>(
    f: FuncView,
    g: FuncView,
    m: Meaning<D, M>,
    number: spec_fn(D) -> i32,
    p: Plan,
    stored: ValueId,
    at: Places,
)
    requires
        is_ready(f, m, number, p, stored, at),
        is_replaced(f, g, p, at),
        verify::valid(g),
    ensures
        exit_is_plain(f, p),
{
    let exit = p.frame.exit;
    let insts = f.block(exit).insts;
    assert forall|i: int| 0 <= i < insts.len() implies !((#[trigger] insts[i]).kind is Phi)
        || insts[i].result is None by {
        if let KindView::Phi { incomings } = insts[i].kind {
            assert(g.block(exit) == f.block(exit));
            assert(verify::block_valid(g, exit) && verify::block_valid(f, exit));
            assert(verify::inst_valid(g, exit, i) && verify::inst_valid(f, exit, i));
            assert(g.has_inst(exit, i) && g.inst(exit, i) == insts[i]);
            assert(f.inst(exit, i) == insts[i]);
            query::lemma_inst_wf(g, exit, i);
            threading_laws::lemma_succ(g.terminator(p.frame.body), exit);
            threading_laws::lemma_phi_names(g, incomings, exit, p.frame.body);
            let k = choose|k: int| 0 <= k < incomings.len() && (#[trigger] incomings[k]).0
                == p.frame.body;
            assert(cfg::edge(f, incomings[k].0, exit));
            threading_laws::lemma_succ(f.terminator(p.frame.body), exit);
        }
    }
}

/// The state is one of the run.
pub open spec fn is_reached<D, M>(
    f: FuncView,
    m: Meaning<D, M>,
    args: Map<ValueId, D>,
    memory: M,
    s: State<D, M>,
) -> bool {
    exists|n: nat| #[trigger]
        semantics::steps(f, m, semantics::start(f, m, args, memory), n) == s
}

/// Wherever the loop is run, the elements of its array are scalars.
pub open spec fn has_scalars<D, M>(
    f: FuncView,
    m: Meaning<D, M>,
    p: Plan,
    scalars: spec_fn(D) -> bool,
    args: Map<ValueId, D>,
    memory: M,
) -> bool {
    forall|s: State<D, M>| #[trigger]
        is_reached(f, m, args, memory, s) ==> (s matches State::Running { block, env, .. } ==> block
            == p.frame.body ==> scalars(env[p.base]))
}

/// The states of the two functions that go together.
pub open spec fn goes_with<D, M>(
    f: FuncView,
    m: Meaning<D, M>,
    number: spec_fn(D) -> i32,
    p: Plan,
    args: Map<ValueId, D>,
    memory: M,
    s: State<D, M>,
    t: State<D, M>,
) -> bool {
    &&& is_reached(f, m, args, memory, s)
    &&& match (s, t) {
        (
            State::Running { block, env, memory: x },
            State::Running { block: other, env: data, memory: z },
        ) => {
            &&& block == other
            &&& x == z
            &&& f.has_block(block)
            &&& constants_kept(f, m, env)
            &&& alike(env, data, loop_values(f, p))
            &&& block == p.frame.header || block == p.frame.body ==> env[p.frame.induction.phi]
                == env[p.frame.induction.initial]
            &&& block == p.frame.body ==> 0 < number(env[p.frame.bound])
        },
        _ => s == t,
    }
}

pub proof fn lemma_reached_on<D, M>(
    f: FuncView,
    m: Meaning<D, M>,
    args: Map<ValueId, D>,
    memory: M,
    s: State<D, M>,
    k: nat,
)
    requires
        is_reached(f, m, args, memory, s),
    ensures
        is_reached(f, m, args, memory, semantics::steps(f, m, s, k)),
{
    let s0 = semantics::start(f, m, args, memory);
    let n = choose|n: nat| #[trigger] semantics::steps(f, m, s0, n) == s;
    semantics::lemma_steps_add(f, m, s0, n, k);
}

/// A step outside of the loop.
#[verifier::rlimit(40)]
proof fn lemma_outside<D, M>(
    f: FuncView,
    g: FuncView,
    m: Meaning<D, M>,
    number: spec_fn(D) -> i32,
    p: Plan,
    stored: ValueId,
    at: Places,
    args: Map<ValueId, D>,
    memory: M,
    s: State<D, M>,
    t: State<D, M>,
)
    requires
        is_ready(f, m, number, p, stored, at),
        is_replaced(f, g, p, at),
        is_unread(f, p),
        goes_with(f, m, number, p, args, memory, s, t),
        s matches State::Running { block, .. } ==> block != p.frame.header && block != p.frame.body,
    ensures
        goes_with(
            f,
            m,
            number,
            p,
            args,
            memory,
            semantics::step(f, m, s),
            semantics::step(g, m, t),
        ),
{
    lemma_reached_on(f, m, args, memory, s, 1);
    semantics::lemma_few_steps(f, m, s);
    if let State::Running { block, env, memory: x } = s {
        let data = t->Running_env;
        let fr = p.frame;
        let unread = loop_values(f, p);
        let insts = f.block(block).insts;
        let n = insts.len() as int;
        assert(g.block(block) == f.block(block));
        assert forall|i: int| 0 <= i < n implies semantics::ignores(
            (#[trigger] insts[i]).kind,
            unread,
        ) by {
            assert(f.has_inst(block, i) && f.inst(block, i) == insts[i]);
        }
        semantics::lemma_executed_alike(m, insts, n, env, data, x, unread);
        meaning_laws::lemma_results_are_computed(f);
        meaning_laws::lemma_execution_keeps_constants(f, m, block, n, env, x);
        let (e1, x1) = semantics::executed(m, insts, n, env, x);
        let d1 = semantics::executed(m, insts, n, data, x).0;
        assert(end_ignores(f.terminator(block), unread));
        assert(g.terminator(block) == f.terminator(block));
        meaning_laws::lemma_targets(f, block);
        query::lemma_terminator_wf(f, block);
        let next = threading_laws::next_block(m, f.terminator(block), e1);
        if let Some(target) = next {
            assert(f.has_block(target));
            assert(cfg::edge(f, block, target));
            assert(target != fr.body);
            let there = f.block(target).insts;
            meaning_laws::lemma_assignment_keeps_constants(
                f,
                m,
                target,
                there.len() as int,
                block,
                e1,
            );
            if target == fr.header {
                lemma_enter_header(f, m, number, p, stored, at, block, e1);
                let here = g.block(target).insts;
                semantics::lemma_nothing_assigned(here, here.len() as int, block, d1);
                assert(alike(e1.insert(fr.induction.phi, e1[fr.induction.initial]), d1, unread));
            } else {
                assert(g.block(target) == f.block(target));
                assert forall|i: int| 0 <= i < there.len() implies semantics::ignores(
                    (#[trigger] there[i]).kind,
                    unread,
                ) by {
                    assert(f.has_inst(target, i) && f.inst(target, i) == there[i]);
                }
                semantics::lemma_assigned_alike(there, there.len() as int, block, e1, d1, unread);
            }
        }
    }
}

/// A step from the header.
#[verifier::rlimit(40)]
proof fn lemma_at_header<D, M>(
    f: FuncView,
    g: FuncView,
    m: Meaning<D, M>,
    number: spec_fn(D) -> i32,
    p: Plan,
    stored: ValueId,
    at: Places,
    args: Map<ValueId, D>,
    memory: M,
    s: State<D, M>,
    t: State<D, M>,
)
    requires
        is_ready(f, m, number, p, stored, at),
        is_replaced(f, g, p, at),
        exit_is_plain(f, p),
        goes_with(f, m, number, p, args, memory, s, t),
        s matches State::Running { block, .. } && block == p.frame.header,
    ensures
        goes_with(
            f,
            m,
            number,
            p,
            args,
            memory,
            semantics::step(f, m, s),
            semantics::step(g, m, t),
        ),
{
    lemma_reached_on(f, m, args, memory, s, 1);
    semantics::lemma_few_steps(f, m, s);
    if let State::Running { block, env, memory: x } = s {
        let data = t->Running_env;
        let fr = p.frame;
        let iv = fr.induction;
        let unread = loop_values(f, p);
        let n = f.block(block).insts.len() as int;
        lemma_run_header(f, m, number, p, stored, at, env, x);
        meaning_laws::lemma_results_are_computed(f);
        meaning_laws::lemma_execution_keeps_constants(f, m, block, n, env, x);
        let d = of_compare(m, CompareOp::Lt, iv.phi, fr.bound, env[iv.phi], env[fr.bound], x);
        let e1 = env.insert(fr.condition, d);
        let now = g.block(block).insts;
        idiom_laws::lemma_single(m, now, at.condition, data, x);
        wrapper_laws::lemma_compare_one(
            m,
            fr.condition.0 as int,
            CompareOp::Lt,
            iv.initial,
            fr.bound,
            data,
            x,
        );
        let d2 = of_compare(
            m,
            CompareOp::Lt,
            iv.initial,
            fr.bound,
            data[iv.initial],
            data[fr.bound],
            x,
        );
        let e2 = data.insert(fr.condition, d2);
        assert(semantics::executed(m, now, now.len() as int, data, x) == (e2, x));
        assert(data[iv.initial] == env[iv.initial] && data[fr.bound] == env[fr.bound]);
        lemma_const_number(f, m, number, env, iv.initial);
        lemma_distinct(f, m, number, p, stored, at);
        assert((m.truth)(d) == (0 < number(env[fr.bound])));
        assert((m.truth)(d2) == (m.truth)(d));
        let body = f.block(fr.body).insts;
        assert forall|k: int| 0 <= k < body.len() implies !((#[trigger] body[k]).kind is Phi) by {
        }
        semantics::lemma_nothing_assigned(body, body.len() as int, block, e1);
        let after = g.block(fr.body).insts;
        assert forall|k: int| 0 <= k < after.len() implies !((#[trigger] after[k]).kind is Phi) by {
        }
        semantics::lemma_nothing_assigned(after, after.len() as int, block, e2);
        let exit = f.block(fr.exit).insts;
        assert(g.block(fr.exit) == f.block(fr.exit));
        semantics::lemma_nothing_assigned(exit, exit.len() as int, block, e1);
        semantics::lemma_nothing_assigned(exit, exit.len() as int, block, e2);
    }
}

/// The step that zeroes the array goes with the rounds of the loop.
#[verifier::rlimit(40)]
proof fn lemma_at_body<D, M>(
    f: FuncView,
    g: FuncView,
    m: Meaning<D, M>,
    number: spec_fn(D) -> i32,
    scalars: spec_fn(D) -> bool,
    p: Plan,
    stored: ValueId,
    at: Places,
    args: Map<ValueId, D>,
    memory: M,
    s: State<D, M>,
    t: State<D, M>,
) -> (k: nat)
    requires
        is_ready(f, m, number, p, stored, at),
        is_replaced(f, g, p, at),
        exit_is_plain(f, p),
        zeroes_elements(m, number, scalars),
        has_scalars(f, m, p, scalars, args, memory),
        goes_with(f, m, number, p, args, memory, s, t),
        s matches State::Running { block, .. } && block == p.frame.body,
    ensures
        k >= 1,
        goes_with(
            f,
            m,
            number,
            p,
            args,
            memory,
            semantics::steps(f, m, s, k),
            semantics::step(g, m, t),
        ),
{
    let env = s->Running_env;
    let x = s->Running_memory;
    let data = t->Running_env;
    let fr = p.frame;
    let iv = fr.induction;
    assert(scalars(env[p.base]));
    assert(env[iv.initial] == m.integer(0)) by {
        assert(f.has_value(iv.initial));
        assert(f.value(iv.initial).kind is Const);
    }
    let (k, last) = lemma_run_loop(f, m, number, p, stored, at, env, x, 0);
    lemma_reached_on(f, m, args, memory, s, k);
    let n = f.block(fr.body).insts.len() as int;
    let now = g.block(fr.body).insts;
    let start = f.next_value();
    assert(semantics::executed(m, now, 0, data, x) == (data, x));
    idiom_laws::lemma_next_one(m, now, 0, n, data, x);
    let place = element(m, env[p.base], m.integer(0), x);
    let e1 = data.insert(start, place);
    assert(data[p.base] == env[p.base] && data[iv.initial] == env[iv.initial] && data[fr.bound]
        == env[fr.bound]);
    assert(one(m, now[n], data, x) == (e1, x)) by {
        let kind = loop_memset::first_element(p);
        assert(ssa::data_of(kind, data) =~= seq![env[p.base], m.integer(0)]);
        let g = |v: ValueId| ValueId(0);
        assert(seq![iv.initial].map_values(g) =~= seq![ValueId(0)].map_values(g));
        assert(semantics::is_plain(semantics::shape(kind)));
    }
    let x1 = zeroed(m, place, env[fr.bound], x);
    assert(one(m, now[n + 1], e1, x) == (e1, x1)) by {
        let kind = loop_memset::zeroing(p, start);
        assert(ssa::data_of(kind, e1) =~= seq![place, env[fr.bound]]);
    }
    assert(semantics::executed(m, now, n + 2, data, x) == (e1, x1));
    assert(f.value(stored).kind is Const);
    let c = f.value(stored).kind->Const_0;
    assert(env[stored] == (m.constant)(c));
    assert(is_zero_constant(c));
    assert(x1 == stored_from(m, env[p.base], env[stored], 0, number(env[fr.bound]) as int, x));
    let exit = f.block(fr.exit).insts;
    assert(g.block(fr.exit) == f.block(fr.exit));
    semantics::lemma_nothing_assigned(exit, exit.len() as int, fr.body, e1);
    assert(alike(last, e1, loop_values(f, p))) by {
        assert forall|v: ValueId| !loop_values(f, p).contains(v) implies #[trigger] last[v]
            == e1[v] by {
            assert(env[v] == data[v]);
            assert(env[v] == last[v]);
        }
    }
    k
}

/// Replacing a loop that zeroes an array keeps what every call returns, where
/// zeroing elements at once is storing zeros in turn, the elements are scalars,
/// and nothing behind the loop reads its condition.
pub proof fn clearing_a_loop_keeps_the_meaning<D, M>(
    f: FuncView,
    l: LoopView,
    p: Plan,
    m: Meaning<D, M>,
    number: spec_fn(D) -> i32,
    scalars: spec_fn(D) -> bool,
    args: Map<ValueId, D>,
    memory: M,
    out: State<D, M>,
)
    requires
        verify::valid(f),
        fits(f),
        f.values.len() < usize::MAX,
        entered_once(f),
        stores_give_nothing(f),
        f.has_block(l.header),
        l == loops::loop_at(f, l.header),
        loop_memset::plan_at(f, l) == Some(p),
        verify::valid(loop_memset::replaced(f, p)),
        !loop_idiom::is_read_outside(f, l, p.frame.condition),
        is_arithmetic(m, number),
        zeroes_elements(m, number, scalars),
        has_scalars(f, m, p, scalars, args, memory),
    ensures
        semantics::yields(loop_memset::replaced(f, p), m, args, memory, out) == semantics::yields(
            f,
            m,
            args,
            memory,
            out,
        ),
{
    let g = loop_memset::replaced(f, p);
    let (stored, at) = lemma_filled(f, l, p);
    idiom_laws::lemma_closed_loop(f, l, p.frame);
    lemma_result(f, p.frame.header, at.phi, p.frame.induction.phi);
    lemma_result(f, p.frame.header, at.condition, p.frame.condition);
    lemma_result(f, p.frame.body, at.address, p.address);
    lemma_result(f, p.frame.body, at.next, p.frame.induction.next);
    assert(is_ready(f, m, number, p, stored, at));
    lemma_replaced(f, m, number, p, stored, at);
    lemma_exit_plain(f, g, m, number, p, stored, at);
    lemma_unread(f, l, p);
    let rel = |s: State<D, M>, t: State<D, M>| goes_with(f, m, number, p, args, memory, s, t);
    assert forall|s: State<D, M>, t: State<D, M>| #[trigger]
        semantics::caught_up(f, g, m, rel, s, t) by {
        if rel(s, t) {
            semantics::lemma_few_steps(f, m, s);
            if let State::Running { block, .. } = s {
                if block == p.frame.body {
                    let k = lemma_at_body(
                        f,
                        g,
                        m,
                        number,
                        scalars,
                        p,
                        stored,
                        at,
                        args,
                        memory,
                        s,
                        t,
                    );
                    assert(rel(semantics::steps(f, m, s, k), semantics::step(g, m, t)));
                } else {
                    if block == p.frame.header {
                        lemma_at_header(f, g, m, number, p, stored, at, args, memory, s, t);
                    } else {
                        lemma_outside(f, g, m, number, p, stored, at, args, memory, s, t);
                    }
                    assert(rel(semantics::steps(f, m, s, 1), semantics::step(g, m, t)));
                }
            } else {
                lemma_outside(f, g, m, number, p, stored, at, args, memory, s, t);
                assert(rel(semantics::steps(f, m, s, 1), semantics::step(g, m, t)));
            }
        }
    }
    assert(semantics::end_alike(rel));
    let s = semantics::start(f, m, args, memory);
    let t = semantics::start(g, m, args, memory);
    assert(semantics::steps(f, m, s, 0) == s);
    assert(is_reached(f, m, args, memory, s));
    assert(rel(s, t)) by {
        let a = semantics::initial(f, m, args);
        let b = semantics::initial(g, m, args);
        assert forall|v: ValueId| !loop_values(f, p).contains(v) implies #[trigger] a[v] == b[v] by {
            if f.has_value(v) {
                assert(g.value(v) == f.value(v));
            } else {
                assert(v != f.next_value());
                assert(!g.has_value(v));
            }
        }
    }
    semantics::followers_compute_the_same(f, g, m, rel, args, memory, out);
}

// ---------------------------------------------------------------------------
// The whole pass
// ---------------------------------------------------------------------------

/// No block outside of the loop reads its condition.
pub open spec fn condition_stays(f: FuncView, p: Plan) -> bool {
    forall|b: BlockId|
        f.has_block(b) && b != p.frame.header && b != p.frame.body ==> !#[trigger]
        loop_idiom::block_reads(f, b, p.frame.condition)
}

/// Every loop that is replaced in up to `fuel` rounds is one over scalars, whose
/// condition is read in the loop only.
pub open spec fn clears_scalars<D, M>(
    f: FuncView,
    fuel: nat,
    m: Meaning<D, M>,
    scalars: spec_fn(D) -> bool,
    args: Map<ValueId, D>,
    memory: M,
) -> bool
    decreases fuel,
{
    match loop_memset::plan_of(f) {
        Some(p) => fuel > 0 && verify::valid(loop_memset::replaced(f, p)) ==> {
            &&& fits(f)
            &&& condition_stays(f, p)
            &&& has_scalars(f, m, p, scalars, args, memory)
            &&& clears_scalars(
                loop_memset::replaced(f, p),
                (fuel - 1) as nat,
                m,
                scalars,
                args,
                memory,
            )
        },
        None => true,
    }
}

/// The plan is that of a loop of the list.
proof fn lemma_planned(f: FuncView, list: Seq<LoopView>, k: int) -> (j: int)
    requires
        0 <= k <= list.len(),
        loop_memset::plan_from(f, list, k) is Some,
    ensures
        0 <= j < list.len(),
        loop_memset::plan_at(f, list[j]) == loop_memset::plan_from(f, list, k),
    decreases list.len() - k,
{
    if loop_memset::plan_at(f, list[k]) is Some {
        k
    } else {
        lemma_planned(f, list, k + 1)
    }
}

/// The new function is entered once, and its stores have no results.
proof fn lemma_stays_plain<D, M>(
    f: FuncView,
    g: FuncView,
    m: Meaning<D, M>,
    number: spec_fn(D) -> i32,
    p: Plan,
    stored: ValueId,
    at: Places,
)
    requires
        is_ready(f, m, number, p, stored, at),
        is_replaced(f, g, p, at),
        entered_once(f),
        stores_give_nothing(f),
    ensures
        entered_once(g),
        stores_give_nothing(g),
{
    let fr = p.frame;
    assert forall|q: BlockId| g.has_block(q) implies !#[trigger] cfg::edge(g, q, g.entry) by {
        threading_laws::lemma_succ(f.terminator(fr.header), fr.exit);
        assert(cfg::edge(f, fr.header, fr.exit));
        assert(!cfg::edge(f, q, f.entry));
        if q == fr.body {
            threading_laws::lemma_succ(g.terminator(q), g.entry);
        } else if q != fr.header {
            assert(g.block(q) == f.block(q));
        }
    }
    assert forall|b: BlockId, i: int|
        g.has_inst(b, i) && (#[trigger] g.inst(b, i)).kind is Store implies g.inst(b, i).result
        is None by {
        if b != fr.header && b != fr.body {
            assert(g.block(b) == f.block(b));
            assert(f.has_inst(b, i) && f.inst(b, i) == g.inst(b, i));
        } else {
            let insts = g.block(b).insts;
            assert(g.inst(b, i) == insts[i]);
            assert(insts[i].kind is Nop || insts[i].kind is ICompare || insts[i].kind is Gep
                || insts[i].kind is MemZero);
        }
    }
}

proof fn lemma_rounds<D, M>(
    f: FuncView,
    fuel: nat,
    m: Meaning<D, M>,
    number: spec_fn(D) -> i32,
    scalars: spec_fn(D) -> bool,
    args: Map<ValueId, D>,
    memory: M,
    out: State<D, M>,
)
    requires
        verify::valid(f),
        entered_once(f),
        stores_give_nothing(f),
        is_arithmetic(m, number),
        zeroes_elements(m, number, scalars),
        clears_scalars(f, fuel, m, scalars, args, memory),
    ensures
        semantics::yields(loop_memset::rounds(f, fuel), m, args, memory, out) == semantics::yields(
            f,
            m,
            args,
            memory,
            out,
        ),
    decreases fuel,
{
    if let Some(p) = loop_memset::plan_of(f) {
        let g = loop_memset::replaced(f, p);
        if fuel > 0 && verify::valid(g) {
            let list = loops::loops_of(f);
            let k = lemma_planned(f, list, 0);
            let l = list[k];
            loops::lemma_listed_loop(f, k);
            idiom_laws::lemma_closed_loop(f, l, p.frame);
            let (stored, at) = lemma_filled(f, l, p);
            lemma_result(f, p.frame.header, at.phi, p.frame.induction.phi);
            lemma_result(f, p.frame.header, at.condition, p.frame.condition);
            lemma_result(f, p.frame.body, at.address, p.address);
            lemma_result(f, p.frame.body, at.next, p.frame.induction.next);
            assert(is_ready(f, m, number, p, stored, at));
            lemma_replaced(f, m, number, p, stored, at);
            lemma_stays_plain(f, g, m, number, p, stored, at);
            clearing_a_loop_keeps_the_meaning(f, l, p, m, number, scalars, args, memory, out);
            lemma_rounds(g, (fuel - 1) as nat, m, number, scalars, args, memory, out);
        }
    }
}

/// The pass keeps what every call returns, where zeroing scalars at once is
/// storing zeros in turn, and nothing behind a loop reads its condition.
pub proof fn clearing_keeps_the_meaning<D, M>(
    f: FuncView,
    m: Meaning<D, M>,
    number: spec_fn(D) -> i32,
    scalars: spec_fn(D) -> bool,
    args: Map<ValueId, D>,
    memory: M,
    out: State<D, M>,
)
    requires
        verify::valid(f),
        entered_once(f),
        stores_give_nothing(f),
        is_arithmetic(m, number),
        zeroes_elements(m, number, scalars),
        clears_scalars(f, loop_idiom::stores_in(f), m, scalars, args, memory),
    ensures
        semantics::yields(loop_memset::cleared(f), m, args, memory, out) == semantics::yields(
            f,
            m,
            args,
            memory,
            out,
        ),
{
    lemma_rounds(f, loop_idiom::stores_in(f), m, number, scalars, args, memory, out);
}

} // verus!
