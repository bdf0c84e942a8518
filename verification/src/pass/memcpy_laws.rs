//! Copying an array at once keeps what a function computes.
use vstd::prelude::*;

use crate::cfg;
use crate::edit;
use crate::emit;
use crate::ir::{
    BlockId, CompareOp, FuncView, InstView, KindView, Terminator, ValueId, ValueKindView,
};
use crate::loops;
use crate::loops::LoopView;
use crate::pass::idiom_laws;
use crate::pass::idiom_laws::is_closed_loop;
use crate::pass::loop_idiom;
use crate::pass::loop_idiom::What;
use crate::pass::loop_memcpy;
use crate::pass::loop_memcpy::Plan;
use crate::pass::memset_laws::{
    element, end_ignores, is_reached, lemma_count, lemma_first_defining, lemma_reached_on,
    lemma_result, stores_give_nothing,
};
use crate::pass::odd_chain_group::run_laws::is_arithmetic;
use crate::pass::range_integer::laws::{lemma_const_number, of_compare};
use crate::pass::simplify_cfg::meaning_laws;
use crate::pass::simplify_cfg::meaning_laws::constants_kept;
use crate::pass::simplify_cfg::select_laws::entered_once;
use crate::pass::simplify_cfg::store_laws::after_store;
use crate::pass::simplify_cfg::threading_laws;
use crate::pass::simplify_cfg::threading_laws::fits;
use crate::pass::wrapper_laws;
use crate::pass::wrapper_laws::loaded;
use crate::patterns;
use crate::query;
use crate::semantics;
use crate::semantics::{alike, Meaning, State};
use crate::ssa;
use crate::ssa::one;
use crate::util;
use crate::verify;

verus! {

// ---------------------------------------------------------------------------
// The instructions of the loop
// ---------------------------------------------------------------------------

/// What is found of the loop besides the plan: its values, and where they stand.
pub struct Details {
    pub src: ValueId,
    pub dst: ValueId,
    pub src_next: ValueId,
    pub dst_next: ValueId,
    pub datum: ValueId,
    pub src_step: ValueId,
    pub dst_step: ValueId,
    pub at_counter: int,
    pub at_src: int,
    pub at_dst: int,
    pub at_condition: int,
    pub at_load: int,
    pub at_store: int,
    pub at_next: int,
    pub at_src_next: int,
    pub at_dst_next: int,
}

/// A phi at a place of the header.
pub open spec fn is_phi_at(
    head: Seq<InstView>,
    i: int,
    p: Plan,
    v: ValueId,
    initial: ValueId,
    next: ValueId,
) -> bool {
    &&& 0 <= i < head.len()
    &&& head[i].result == Some(v)
    &&& head[i].kind is Phi
    &&& util::incoming_from(head[i].kind->Phi_incomings, p.frame.preheader) == Some(initial)
    &&& util::incoming_from(head[i].kind->Phi_incomings, p.frame.body) == Some(next)
}

/// What stands in the loop.
pub open spec fn is_filled(f: FuncView, p: Plan, t: Details) -> bool {
    let fr = p.frame;
    let iv = fr.induction;
    let head = f.block(fr.header).insts;
    let body = f.block(fr.body).insts;
    &&& iv.phi != t.src
    &&& iv.phi != t.dst
    &&& t.src != t.dst
    &&& is_phi_at(head, t.at_counter, p, iv.phi, iv.initial, iv.next)
    &&& is_phi_at(head, t.at_src, p, t.src, p.initial_src, t.src_next)
    &&& is_phi_at(head, t.at_dst, p, t.dst, p.initial_dst, t.dst_next)
    &&& 0 <= t.at_condition < head.len()
    &&& head[t.at_condition] == (InstView {
        result: Some(fr.condition),
        kind: KindView::ICompare { op: CompareOp::Lt, lhs: iv.phi, rhs: fr.bound },
    })
    &&& forall|i: int|
        0 <= i < head.len() && i != t.at_counter && i != t.at_src && i != t.at_dst && i
            != t.at_condition ==> (#[trigger] head[i]).kind is Nop
    &&& 0 <= t.at_load < t.at_store < body.len()
    &&& 0 <= t.at_next < body.len()
    &&& 0 <= t.at_src_next < body.len()
    &&& 0 <= t.at_dst_next < body.len()
    &&& body[t.at_load] == (InstView {
        result: Some(t.datum),
        kind: KindView::Load { ptr: t.src },
    })
    &&& body[t.at_store] == (InstView {
        result: None,
        kind: KindView::Store { ptr: t.dst, value: t.datum },
    })
    &&& body[t.at_next].result == Some(iv.next)
    &&& loops::step_of(f, body[t.at_next].kind, iv.phi) == Some(1i32)
    &&& body[t.at_src_next] == (InstView {
        result: Some(t.src_next),
        kind: KindView::Gep { base: t.src, indices: seq![t.src_step] },
    })
    &&& body[t.at_dst_next] == (InstView {
        result: Some(t.dst_next),
        kind: KindView::Gep { base: t.dst, indices: seq![t.dst_step] },
    })
    &&& loop_idiom::literal_of(f, t.src_step) == Some(1i32)
    &&& loop_idiom::literal_of(f, t.dst_step) == Some(1i32)
    &&& forall|i: int|
        0 <= i < body.len() && i != t.at_load && i != t.at_store && i != t.at_next && i
            != t.at_src_next && i != t.at_dst_next ==> (#[trigger] body[i]).kind is Nop
}

/// What the loop computes and nothing behind it reads.
pub open spec fn loop_values(p: Plan, t: Details) -> Set<ValueId> {
    set![
        p.frame.induction.phi,
        p.frame.induction.next,
        p.frame.condition,
        t.src,
        t.dst,
        t.src_next,
        t.dst_next,
        t.datum,
    ]
}

/// The value exists, and does not change in the loop.
pub open spec fn is_outer(f: FuncView, p: Plan, t: Details, v: ValueId) -> bool {
    f.has_value(v) && !loop_values(p, t).contains(v)
}

proof fn lemma_phi_place(insts: Seq<InstView>, n: int, v: ValueId) -> (i: int)
    requires
        0 <= n <= insts.len(),
        patterns::phi_results_below(insts, n).contains(v),
    ensures
        0 <= i < n,
        insts[i].kind is Phi,
        insts[i].result == Some(v),
    decreases n,
{
    let all = patterns::phi_results_below(insts, n);
    let before = patterns::phi_results_below(insts, n - 1);
    if insts[n - 1].kind is Phi && insts[n - 1].result == Some(v) {
        n - 1
    } else {
        assert(before.contains(v)) by {
            let k = choose|k: int| 0 <= k < all.len() && all[k] == v;
            assert(before[k] == v);
        }
        lemma_phi_place(insts, n - 1, v)
    }
}

proof fn lemma_load_from(insts: Seq<InstView>, k: int) -> (i: int)
    requires
        0 <= k <= insts.len(),
        loop_memcpy::load_from(insts, k) is Some,
    ensures
        k <= i < insts.len(),
        insts[i] == (InstView {
            result: Some(loop_memcpy::load_from(insts, k)->Some_0.0),
            kind: KindView::Load { ptr: loop_memcpy::load_from(insts, k)->Some_0.1 },
        }),
    decreases insts.len() - k,
{
    match (insts[k].result, insts[k].kind) {
        (Some(_), KindView::Load { .. }) => k,
        _ => lemma_load_from(insts, k + 1),
    }
}

proof fn lemma_store_of_from(insts: Seq<InstView>, v: ValueId, k: int)
    requires
        0 <= k <= insts.len() <= usize::MAX,
    ensures
        loop_memcpy::store_of_from(insts, v, k) matches Some((i, ptr)) ==> k <= i < insts.len()
            && insts[i as int].kind == (KindView::Store { ptr, value: v }),
    decreases insts.len() - k,
{
    if k < insts.len() {
        lemma_store_of_from(insts, v, k + 1);
    }
}

/// The loop value is not what another value of the list is.
proof fn lemma_not_of_loop(f: FuncView, p: Plan, v: ValueId)
    requires
        verify::valid(f),
        is_closed_loop(f, p.frame),
        f.has_block(p.frame.preheader),
        !cfg::dominates(f, p.frame.header, p.frame.preheader),
        !cfg::dominates(f, p.frame.body, p.frame.preheader),
        verify::available(
            f,
            v,
            p.frame.preheader,
            verify::block_end(f, p.frame.preheader),
        ),
    ensures
        f.value(v).kind matches ValueKindView::Inst(b, _) ==> b != p.frame.header && b
            != p.frame.body,
{
}

proof fn lemma_filled(f: FuncView, l: LoopView, p: Plan) -> (t: Details)
    requires
        verify::valid(f),
        fits(f),
        entered_once(f),
        stores_give_nothing(f),
        f.has_block(l.header),
        l == loops::loop_at(f, l.header),
        loop_memcpy::plan_at(f, l) == Some(p),
    ensures
        is_closed_loop(f, p.frame),
        is_filled(f, p, t),
        are_distinct(p, t),
        is_outer(f, p, t, p.initial_src),
        is_outer(f, p, t, p.initial_dst),
        is_outer(f, p, t, p.frame.bound),
        is_outer(f, p, t, p.frame.induction.initial),
        is_outer(f, p, t, t.src_step),
        is_outer(f, p, t, t.dst_step),
        util::const_i32_of(f, p.frame.induction.initial) == Some(0i32),
{
    let body = f.block(p.frame.body).insts;
    let (datum, src) = loop_memcpy::load_from(body, 0)->Some_0;
    let (index, dst) = loop_memcpy::store_of_from(body, datum, 0)->Some_0;
    lemma_parts(f, l, p, datum, src, dst)
}

/// What stands in a loop that was recognised.
#[verifier::rlimit(60)]
proof fn lemma_parts(
    f: FuncView,
    l: LoopView,
    p: Plan,
    datum: ValueId,
    src: ValueId,
    dst: ValueId,
) -> (t: Details)
    requires
        verify::valid(f),
        fits(f),
        entered_once(f),
        stores_give_nothing(f),
        f.has_block(l.header),
        l == loops::loop_at(f, l.header),
        loop_idiom::frame_of(f, l) == Some(p.frame),
        loop_memcpy::sizes_fit(f, p.frame),
        loop_memcpy::load_from(f.block(p.frame.body).insts, 0) == Some((datum, src)),
        loop_memcpy::store_of_from(f.block(p.frame.body).insts, datum, 0) == Some(
            (p.store_index, dst),
        ),
        loop_memcpy::pointers_fit(f, p.frame, src, dst, datum),
        loop_memcpy::walk_of(f, p.frame, src) == Some(p.initial_src),
        loop_memcpy::walk_of(f, p.frame, dst) == Some(p.initial_dst),
    ensures
        is_closed_loop(f, p.frame),
        is_filled(f, p, t),
        are_distinct(p, t),
        is_outer(f, p, t, p.initial_src),
        is_outer(f, p, t, p.initial_dst),
        is_outer(f, p, t, p.frame.bound),
        is_outer(f, p, t, p.frame.induction.initial),
        is_outer(f, p, t, t.src_step),
        is_outer(f, p, t, t.dst_step),
        util::const_i32_of(f, p.frame.induction.initial) == Some(0i32),
{
    let fr = p.frame;
    let iv = fr.induction;
    idiom_laws::lemma_closed_loop(f, l, fr);
    idiom_laws::lemma_preheader_ahead(f, l, fr);
    let head = f.block(fr.header).insts;
    let body = f.block(fr.body).insts;
    assert(head.len() <= usize::MAX && body.len() <= usize::MAX) by {
        assert(f.has_block(fr.header) && f.has_block(fr.body));
    }
    let at_load = lemma_load_from(body, 0);
    lemma_store_of_from(body, datum, 0);
    let at_store = p.store_index as int;
    let n = head.len() as int;
    let at_counter = lemma_phi_place(head, n, iv.phi);
    let at_src = lemma_phi_place(head, n, src);
    let at_dst = lemma_phi_place(head, n, dst);
    let at_condition = choose|i: int|
        0 <= i < head.len() && (#[trigger] f.inst(fr.header, i)).result == Some(fr.condition)
            && loop_idiom::kind_is(f.inst(fr.header, i).kind, What::Any);
    assert(head[at_condition] == f.inst(fr.header, at_condition));
    lemma_result(f, fr.header, at_counter, iv.phi);
    lemma_result(f, fr.header, at_src, src);
    lemma_result(f, fr.header, at_dst, dst);
    lemma_result(f, fr.header, at_condition, fr.condition);
    assert(f.inst(fr.header, at_counter) == head[at_counter]);
    assert(f.inst(fr.header, at_src) == head[at_src]);
    assert(f.inst(fr.header, at_dst) == head[at_dst]);
    let src_next = loop_memcpy::incoming_of(f, src, fr.body)->Some_0;
    let dst_next = loop_memcpy::incoming_of(f, dst, fr.body)->Some_0;
    let at_next = choose|i: int|
        0 <= i < body.len() && (#[trigger] f.inst(fr.body, i)).result == Some(iv.next)
            && loop_idiom::kind_is(f.inst(fr.body, i).kind, What::Any);
    let at_src_next = choose|i: int|
        0 <= i < body.len() && (#[trigger] f.inst(fr.body, i)).result == Some(src_next)
            && loop_idiom::kind_is(f.inst(fr.body, i).kind, What::Any);
    let at_dst_next = choose|i: int|
        0 <= i < body.len() && (#[trigger] f.inst(fr.body, i)).result == Some(dst_next)
            && loop_idiom::kind_is(f.inst(fr.body, i).kind, What::Any);
    assert(body[at_next] == f.inst(fr.body, at_next));
    assert(body[at_src_next] == f.inst(fr.body, at_src_next));
    assert(body[at_dst_next] == f.inst(fr.body, at_dst_next));
    lemma_result(f, fr.body, at_next, iv.next);
    lemma_result(f, fr.body, at_src_next, src_next);
    lemma_result(f, fr.body, at_dst_next, dst_next);
    lemma_result(f, fr.body, at_load, datum);
    let src_step = body[at_src_next].kind->Gep_indices[0];
    let dst_step = body[at_dst_next].kind->Gep_indices[0];
    assert(body[at_src_next].kind->Gep_indices =~= seq![src_step]);
    assert(body[at_dst_next].kind->Gep_indices =~= seq![dst_step]);
    assert(f.inst(fr.body, at_store) == body[at_store]);
    assert(f.has_inst(fr.body, at_store));
    assert(verify::block_valid(f, fr.body));
    assert(verify::inst_valid(f, fr.body, at_store));
    assert(at_load < at_store) by {
        let list = edit::operands(body[at_store].kind);
        assert(list[1] == datum);
        assert(verify::available(f, list[1], fr.body, at_store));
    }
    assert forall|i: int|
        0 <= i < head.len() && i != at_counter && i != at_src && i != at_dst && i != at_condition
        implies (#[trigger] head[i]).kind is Nop by {
        idiom_laws::lemma_others_idle(head, seq![at_counter, at_src, at_dst, at_condition], i);
    }
    assert forall|i: int|
        0 <= i < body.len() && i != at_load && i != at_store && i != at_next && i != at_src_next
            && i != at_dst_next implies (#[trigger] body[i]).kind is Nop by {
        idiom_laws::lemma_others_idle(
            body,
            seq![at_load, at_store, at_next, at_src_next, at_dst_next],
            i,
        );
    }
    let t = Details {
        src,
        dst,
        src_next,
        dst_next,
        datum,
        src_step,
        dst_step,
        at_counter,
        at_src,
        at_dst,
        at_condition,
        at_load,
        at_store,
        at_next,
        at_src_next,
        at_dst_next,
    };
    assert(verify::block_valid(f, fr.header));
    assert(verify::inst_valid(f, fr.header, at_src) && verify::inst_valid(f, fr.header, at_dst));
    lemma_initial(f, p, head[at_src].kind->Phi_incomings, p.initial_src);
    lemma_initial(f, p, head[at_dst].kind->Phi_incomings, p.initial_dst);
    lemma_distinct(f, p, t);
    query::lemma_inst_wf(f, fr.header, at_src);
    query::lemma_inst_wf(f, fr.header, at_dst);
    query::lemma_inst_wf(f, fr.header, at_condition);
    loops::lemma_incoming_in_range(
        head[at_src].kind->Phi_incomings,
        fr.preheader,
        f.blocks.len(),
        f.values.len(),
    );
    loops::lemma_incoming_in_range(
        head[at_dst].kind->Phi_incomings,
        fr.preheader,
        f.blocks.len(),
        f.values.len(),
    );
    assert(f.has_value(fr.bound)) by {
        assert(edit::operands(head[at_condition].kind)[1] == fr.bound);
    }
    assert(is_filled(f, p, t));
    lemma_outer(f, p, t, p.initial_src);
    lemma_outer(f, p, t, p.initial_dst);
    lemma_outer(f, p, t, fr.bound);
    lemma_outer(f, p, t, iv.initial);
    lemma_outer(f, p, t, src_step);
    lemma_outer(f, p, t, dst_step);
    t
}

/// A value that is not computed in the loop does not change in it.
proof fn lemma_outer(f: FuncView, p: Plan, t: Details, v: ValueId)
    requires
        verify::valid(f),
        is_closed_loop(f, p.frame),
        is_filled(f, p, t),
        f.has_value(v),
        f.value(v).kind matches ValueKindView::Inst(b, _) ==> b != p.frame.header && b
            != p.frame.body,
    ensures
        is_outer(f, p, t, v),
{
    let fr = p.frame;
    assert(f.has_block(fr.header) && f.has_block(fr.body));
    lemma_result(f, fr.header, t.at_counter, fr.induction.phi);
    lemma_result(f, fr.header, t.at_src, t.src);
    lemma_result(f, fr.header, t.at_dst, t.dst);
    lemma_result(f, fr.header, t.at_condition, fr.condition);
    lemma_result(f, fr.body, t.at_next, fr.induction.next);
    lemma_result(f, fr.body, t.at_src_next, t.src_next);
    lemma_result(f, fr.body, t.at_dst_next, t.dst_next);
    lemma_result(f, fr.body, t.at_load, t.datum);
}

/// What a phi takes from the preheader does not come from the loop.
proof fn lemma_initial(
    f: FuncView,
    p: Plan,
    incomings: Seq<(BlockId, ValueId)>,
    v: ValueId,
)
    requires
        verify::valid(f),
        is_closed_loop(f, p.frame),
        f.has_block(p.frame.preheader),
        !cfg::dominates(f, p.frame.header, p.frame.preheader),
        !cfg::dominates(f, p.frame.body, p.frame.preheader),
        verify::phi_valid(f, incomings, p.frame.header),
        util::incoming_from(incomings, p.frame.preheader) == Some(v),
    ensures
        f.value(v).kind matches ValueKindView::Inst(b, _) ==> b != p.frame.header && b
            != p.frame.body,
{
    threading_laws::lemma_incoming_entry(incomings, p.frame.preheader);
    let k = choose|k: int| 0 <= k < incomings.len() && #[trigger] incomings[k] == (
        p.frame.preheader,
        v,
    );
    assert(verify::available(
        f,
        incomings[k].1,
        incomings[k].0,
        verify::block_end(f, incomings[k].0),
    ));
    lemma_not_of_loop(f, p, v);
}

// ---------------------------------------------------------------------------
// The loop
// ---------------------------------------------------------------------------

/// The memory after so many elements are copied one after the other.
pub open spec fn copied<D, M>(m: Meaning<D, M>, dst: D, src: D, count: int, memory: M) -> M
    decreases count,
{
    if count <= 0 {
        memory
    } else {
        let (d, x1) = loaded(m, src, memory);
        let x2 = after_store(m, dst, d, x1);
        copied(
            m,
            element(m, dst, m.integer(1), memory),
            element(m, src, m.integer(1), memory),
            count - 1,
            x2,
        )
    }
}

/// The memory after as many elements are copied at once as the count says.
pub open spec fn copied_at_once<D, M>(m: Meaning<D, M>, dst: D, src: D, count: D, memory: M) -> M {
    (m.apply)(
        semantics::shape(
            KindView::MemCopy {
                dst: ValueId(0),
                src: ValueId(0),
                element_bytes: loop_idiom::ELEMENT_BYTES as i32,
                count: ValueId(0),
            },
        ),
        seq![dst, src, count],
        memory,
    ).1
}

/// Copying scalars at once is copying one after the other, where the elements lie
/// apart.
pub open spec fn copies_elements<D, M>(
    m: Meaning<D, M>,
    number: spec_fn(D) -> i32,
    apart: spec_fn(D, D) -> bool,
) -> bool {
    forall|dst: D, src: D, count: D, x: M|
        apart(dst, src) && number(count) >= 0 ==> #[trigger] copied_at_once(m, dst, src, count, x)
            == copied(m, dst, src, number(count) as int, x)
}

/// What holds of the loop.
pub open spec fn is_ready<D, M>(
    f: FuncView,
    m: Meaning<D, M>,
    number: spec_fn(D) -> i32,
    p: Plan,
    t: Details,
) -> bool {
    &&& verify::valid(f)
    &&& fits(f)
    &&& is_closed_loop(f, p.frame)
    &&& is_filled(f, p, t)
    &&& is_outer(f, p, t, p.initial_src)
    &&& is_outer(f, p, t, p.initial_dst)
    &&& is_outer(f, p, t, p.frame.bound)
    &&& is_outer(f, p, t, p.frame.induction.initial)
    &&& is_outer(f, p, t, t.src_step)
    &&& is_outer(f, p, t, t.dst_step)
    &&& util::const_i32_of(f, p.frame.induction.initial) == Some(0i32)
    &&& is_arithmetic(m, number)
    &&& are_distinct(p, t)
}

/// The values of the loop differ from each other.
pub open spec fn are_distinct(p: Plan, t: Details) -> bool {
    let iv = p.frame.induction;
    &&& iv.phi != t.src
    &&& iv.phi != t.dst
    &&& t.src != t.dst
    &&& iv.phi != p.frame.condition
    &&& t.src != p.frame.condition
    &&& t.dst != p.frame.condition
    &&& iv.next != t.src_next
    &&& iv.next != t.dst_next
    &&& iv.next != t.datum
    &&& t.src_next != t.dst_next
    &&& t.src_next != t.datum
    &&& t.dst_next != t.datum
    &&& !is_head_value(p, t, iv.next)
    &&& !is_head_value(p, t, t.src_next)
    &&& !is_head_value(p, t, t.dst_next)
    &&& !is_head_value(p, t, t.datum)
}

pub open spec fn is_head_value(p: Plan, t: Details, v: ValueId) -> bool {
    v == p.frame.induction.phi || v == t.src || v == t.dst || v == p.frame.condition
}

proof fn lemma_distinct(f: FuncView, p: Plan, t: Details)
    requires
        verify::valid(f),
        is_closed_loop(f, p.frame),
        fits(f),
        is_filled(f, p, t),
    ensures
        are_distinct(p, t),
        t.at_counter != t.at_src,
        t.at_counter != t.at_dst,
        t.at_src != t.at_dst,
{
    let fr = p.frame;
    assert(f.has_block(fr.header) && f.has_block(fr.body));
    let head = f.block(fr.header).insts;
    let body = f.block(fr.body).insts;
    lemma_result(f, fr.header, t.at_counter, fr.induction.phi);
    lemma_result(f, fr.header, t.at_src, t.src);
    lemma_result(f, fr.header, t.at_dst, t.dst);
    lemma_result(f, fr.header, t.at_condition, fr.condition);
    lemma_result(f, fr.body, t.at_next, fr.induction.next);
    lemma_result(f, fr.body, t.at_src_next, t.src_next);
    lemma_result(f, fr.body, t.at_dst_next, t.dst_next);
    lemma_result(f, fr.body, t.at_load, t.datum);
}

/// The data behind an arrival at the header.
pub open spec fn entered<D>(p: Plan, t: Details, from_body: bool, e: Map<ValueId, D>) -> Map<
    ValueId,
    D,
> {
    let iv = p.frame.induction;
    if from_body {
        e.insert(iv.phi, e[iv.next]).insert(t.src, e[t.src_next]).insert(t.dst, e[t.dst_next])
    } else {
        e.insert(iv.phi, e[iv.initial]).insert(t.src, e[p.initial_src]).insert(
            t.dst,
            e[p.initial_dst],
        )
    }
}

/// Arrival at the header sets the counter and the pointers.
proof fn lemma_enter_header<D, M>(
    f: FuncView,
    m: Meaning<D, M>,
    number: spec_fn(D) -> i32,
    p: Plan,
    t: Details,
    pred: BlockId,
    e: Map<ValueId, D>,
)
    requires
        is_ready(f, m, number, p, t),
        pred == p.frame.preheader || pred == p.frame.body,
    ensures
        ({
            let insts = f.block(p.frame.header).insts;
            let r = semantics::phis_assigned(insts, insts.len() as int, pred, e);
            forall|w: ValueId| #[trigger] r[w] == entered(p, t, pred == p.frame.body, e)[w]
        }),
{
    let fr = p.frame;
    let iv = fr.induction;
    let insts = f.block(fr.header).insts;
    let n = insts.len() as int;
    let back = pred == fr.body;
    let r = semantics::phis_assigned(insts, n, pred, e);
    assert(f.has_block(fr.header));
    assert forall|k: int, j: int|
        0 <= k < n && 0 <= j < n && k != j && (#[trigger] insts[k]).result is Some implies (
    #[trigger] insts[j]).result != insts[k].result by {
        if insts[j].result == insts[k].result {
            let v = insts[k].result->Some_0;
            lemma_result(f, fr.header, k, v);
            lemma_result(f, fr.header, j, v);
        }
    }
    lemma_distinct(f, p, t);
    ssa::lemma_phi_takes(
        insts,
        n,
        t.at_counter,
        pred,
        e,
        iv.phi,
        if back {
            iv.next
        } else {
            iv.initial
        },
    );
    ssa::lemma_phi_takes(
        insts,
        n,
        t.at_src,
        pred,
        e,
        t.src,
        if back {
            t.src_next
        } else {
            p.initial_src
        },
    );
    ssa::lemma_phi_takes(
        insts,
        n,
        t.at_dst,
        pred,
        e,
        t.dst,
        if back {
            t.dst_next
        } else {
            p.initial_dst
        },
    );
    assert forall|w: ValueId| #[trigger] r[w] == entered(p, t, back, e)[w] by {
        if w != iv.phi && w != t.src && w != t.dst {
            ssa::lemma_not_assigned(insts, n, pred, e, w);
        }
    }
}

/// The header compares the counter with the bound.
proof fn lemma_run_header<D, M>(
    f: FuncView,
    m: Meaning<D, M>,
    number: spec_fn(D) -> i32,
    p: Plan,
    t: Details,
    e: Map<ValueId, D>,
    x: M,
)
    requires
        is_ready(f, m, number, p, t),
    ensures
        ({
            let fr = p.frame;
            let insts = f.block(fr.header).insts;
            let d = of_compare(
                m,
                CompareOp::Lt,
                fr.induction.phi,
                fr.bound,
                e[fr.induction.phi],
                e[fr.bound],
                x,
            );
            semantics::executed(m, insts, insts.len() as int, e, x) == (
                e.insert(fr.condition, d),
                x,
            )
        }),
{
    let fr = p.frame;
    let insts = f.block(fr.header).insts;
    idiom_laws::lemma_single(m, insts, t.at_condition, e, x);
    wrapper_laws::lemma_compare_one(
        m,
        fr.condition.0 as int,
        CompareOp::Lt,
        fr.induction.phi,
        fr.bound,
        e,
        x,
    );
}

/// What the first `n` instructions of the body have done.
pub open spec fn is_done<D, M>(
    m: Meaning<D, M>,
    p: Plan,
    t: Details,
    e: Map<ValueId, D>,
    x: M,
    i: int,
    n: int,
    r: Map<ValueId, D>,
    z: M,
) -> bool {
    let iv = p.frame.induction;
    let (d, x1) = loaded(m, e[t.src], x);
    let x2 = after_store(m, e[t.dst], d, x1);
    &&& forall|w: ValueId|
        w != iv.next && w != t.src_next && w != t.dst_next && w != t.datum ==> #[trigger] r[w]
            == e[w]
    &&& t.at_next < n ==> r[iv.next] == m.integer((i + 1) as i32)
    &&& t.at_src_next < n ==> r[t.src_next] == element(m, e[t.src], m.integer(1), x)
    &&& t.at_dst_next < n ==> r[t.dst_next] == element(m, e[t.dst], m.integer(1), x)
    &&& t.at_load < n ==> r[t.datum] == d
    &&& z == if n <= t.at_load {
        x
    } else if n <= t.at_store {
        x1
    } else {
        x2
    }
}

#[verifier::rlimit(60)]
proof fn lemma_run_body<D, M>(
    f: FuncView,
    m: Meaning<D, M>,
    number: spec_fn(D) -> i32,
    p: Plan,
    t: Details,
    e: Map<ValueId, D>,
    x: M,
    i: int,
    n: int,
)
    requires
        is_ready(f, m, number, p, t),
        constants_kept(f, m, e),
        number(e[p.frame.induction.phi]) == i,
        i < i32::MAX,
        0 <= n <= f.block(p.frame.body).insts.len(),
    ensures
        ({
            let (r, z) = semantics::executed(m, f.block(p.frame.body).insts, n, e, x);
            is_done(m, p, t, e, x, i, n, r, z)
        }),
    decreases n,
{
    if n > 0 {
        lemma_run_body(f, m, number, p, t, e, x, i, n - 1);
        let insts = f.block(p.frame.body).insts;
        let iv = p.frame.induction;
        let (r, z) = semantics::executed(m, insts, n - 1, e, x);
        let inst = insts[n - 1];
        meaning_laws::lemma_results_are_computed(f);
        meaning_laws::lemma_execution_keeps_constants(f, m, p.frame.body, n - 1, e, x);
        assert(semantics::executed(m, insts, n, e, x) == one(m, inst, r, z));
        let zero = |v: ValueId| ValueId(0);
        if n - 1 == t.at_load {
            assert(ssa::data_of(inst.kind, r) =~= seq![e[t.src]]);
        } else if n - 1 == t.at_store {
            assert(ssa::data_of(inst.kind, r) =~= seq![e[t.dst], r[t.datum]]);
        } else if n - 1 == t.at_next {
            lemma_count(f, m, number, inst.kind, iv.phi, r, z, i);
        } else if n - 1 == t.at_src_next {
            assert(r[t.src_step] == m.integer(1)) by {
                assert(f.has_value(t.src_step));
            }
            assert(ssa::data_of(inst.kind, r) =~= seq![e[t.src], m.integer(1)]);
            assert(seq![t.src_step].map_values(zero) =~= seq![ValueId(0)].map_values(zero));
            assert(semantics::is_plain(semantics::shape(inst.kind)));
        } else if n - 1 == t.at_dst_next {
            assert(r[t.dst_step] == m.integer(1)) by {
                assert(f.has_value(t.dst_step));
            }
            assert(ssa::data_of(inst.kind, r) =~= seq![e[t.dst], m.integer(1)]);
            assert(seq![t.dst_step].map_values(zero) =~= seq![ValueId(0)].map_values(zero));
            assert(semantics::is_plain(semantics::shape(inst.kind)));
        } else {
            assert(inst.kind is Nop);
        }
    }
}

/// No phi at the exit defines a value.
pub open spec fn exit_is_plain(f: FuncView, p: Plan) -> bool {
    forall|i: int|
        0 <= i < f.block(p.frame.exit).insts.len() ==> !((#[trigger] f.block(
            p.frame.exit,
        ).insts[i]).kind is Phi) || f.block(p.frame.exit).insts[i].result is None
}

/// The loop, from its body on with the counter at `i`, copies up to the bound and
/// leaves.
#[verifier::rlimit(60)]
proof fn lemma_run_loop<D, M>(
    f: FuncView,
    m: Meaning<D, M>,
    number: spec_fn(D) -> i32,
    p: Plan,
    t: Details,
    e: Map<ValueId, D>,
    x: M,
    i: int,
) -> (r: (nat, Map<ValueId, D>))
    requires
        is_ready(f, m, number, p, t),
        exit_is_plain(f, p),
        constants_kept(f, m, e),
        e[p.frame.induction.phi] == m.integer(i as i32),
        0 <= i < number(e[p.frame.bound]),
    ensures
        r.0 >= 1,
        semantics::steps(f, m, State::Running { block: p.frame.body, env: e, memory: x }, r.0)
            == (State::Running {
            block: p.frame.exit,
            env: r.1,
            memory: copied(
                m,
                e[t.dst],
                e[t.src],
                number(e[p.frame.bound]) - i,
                x,
            ),
        }),
        constants_kept(f, m, r.1),
        alike(e, r.1, loop_values(p, t)),
    decreases number(e[p.frame.bound]) - i,
{
    let fr = p.frame;
    let iv = fr.induction;
    let s = State::Running { block: fr.body, env: e, memory: x };
    let n = number(e[fr.bound]) as int;
    let insts = f.block(fr.body).insts;
    let len = insts.len() as int;
    assert(number(m.integer(i as i32)) == i);
    lemma_run_body(f, m, number, p, t, e, x, i, len);
    let (e1, x1) = semantics::executed(m, insts, len, e, x);
    meaning_laws::lemma_results_are_computed(f);
    meaning_laws::lemma_execution_keeps_constants(f, m, fr.body, len, e, x);
    lemma_enter_header(f, m, number, p, t, fr.body, e1);
    let head = f.block(fr.header).insts;
    let e2 = semantics::phis_assigned(head, head.len() as int, fr.body, e1);
    meaning_laws::lemma_assignment_keeps_constants(
        f,
        m,
        fr.header,
        head.len() as int,
        fr.body,
        e1,
    );
    let s1 = State::Running { block: fr.header, env: e2, memory: x1 };
    assert(semantics::step(f, m, s) == s1);
    lemma_run_header(f, m, number, p, t, e2, x1);
    assert(e2[iv.phi] == entered(p, t, true, e1)[iv.phi]);
    assert(e2[t.src] == entered(p, t, true, e1)[t.src]);
    assert(e2[t.dst] == entered(p, t, true, e1)[t.dst]);
    assert(e2[fr.bound] == entered(p, t, true, e1)[fr.bound]);
    let d = of_compare(m, CompareOp::Lt, iv.phi, fr.bound, e2[iv.phi], e2[fr.bound], x1);
    let e3 = e2.insert(fr.condition, d);
    meaning_laws::lemma_execution_keeps_constants(
        f,
        m,
        fr.header,
        head.len() as int,
        e2,
        x1,
    );
    assert(alike(e, e3, loop_values(p, t))) by {
        assert forall|w: ValueId| !loop_values(p, t).contains(w) implies #[trigger] e[w]
            == e3[w] by {
            assert(e1[w] == e[w]);
            assert(e2[w] == entered(p, t, true, e1)[w]);
        }
    }
    assert(e3[fr.bound] == e[fr.bound]);
    assert(number(m.integer((i + 1) as i32)) == i + 1);
    assert((m.truth)(d) == (i + 1 < n));
    semantics::lemma_few_steps(f, m, s);
    if i + 1 < n {
        assert forall|k: int| 0 <= k < len implies !((#[trigger] insts[k]).kind is Phi) by {
        }
        semantics::lemma_nothing_assigned(insts, len, fr.header, e3);
        let s2 = State::Running { block: fr.body, env: e3, memory: x1 };
        assert(semantics::step(f, m, s1) == s2);
        let (k, last) = lemma_run_loop(f, m, number, p, t, e3, x1, i + 1);
        semantics::lemma_steps_add(f, m, s, 2, k);
        (2 + k, last)
    } else {
        let exit = f.block(fr.exit).insts;
        semantics::lemma_nothing_assigned(exit, exit.len() as int, fr.header, e3);
        assert(copied(m, e3[t.dst], e3[t.src], 0, x1) == x1);
        (2, e3)
    }
}

// ---------------------------------------------------------------------------
// The function with the loop replaced
// ---------------------------------------------------------------------------

/// What the new function consists of.
pub open spec fn is_replaced(f: FuncView, g: FuncView, p: Plan, t: Details) -> bool {
    let fr = p.frame;
    let head = g.block(fr.header).insts;
    let body = g.block(fr.body).insts;
    let n = f.block(fr.body).insts.len() as int;
    &&& g.entry == f.entry
    &&& g.params == f.params
    &&& g.blocks.len() == f.blocks.len()
    &&& g.values == f.values
    &&& forall|b: BlockId|
        f.has_block(b) && b != fr.header && b != fr.body ==> #[trigger] g.block(b) == f.block(b)
    &&& g.terminator(fr.header) == f.terminator(fr.header)
    &&& g.terminator(fr.body) == Some(Terminator::Jump(fr.exit))
    &&& head.len() == f.block(fr.header).insts.len()
    &&& head[t.at_condition] == (InstView {
        result: Some(fr.condition),
        kind: KindView::ICompare {
            op: CompareOp::Lt,
            lhs: fr.induction.initial,
            rhs: fr.bound,
        },
    })
    &&& forall|i: int|
        0 <= i < head.len() && i != t.at_condition ==> (#[trigger] head[i]).kind is Nop
    &&& body.len() == n + 1
    &&& forall|i: int| 0 <= i < n ==> (#[trigger] body[i]).kind is Nop
    &&& body[n] == (InstView { result: None, kind: loop_memcpy::copying(p) })
}

#[verifier::rlimit(60)]
proof fn lemma_replaced<D, M>(
    f: FuncView,
    m: Meaning<D, M>,
    number: spec_fn(D) -> i32,
    p: Plan,
    t: Details,
)
    requires
        is_ready(f, m, number, p, t),
    ensures
        is_replaced(f, loop_memcpy::replaced(f, p), p, t),
{
    reveal(emit::refilled);
    reveal(emit::effected);
    reveal(emit::ended);
    let fr = p.frame;
    let g = loop_memcpy::replaced(f, p);
    assert(f.has_block(fr.header));
    let head = f.block(fr.header).insts;
    let kept = Seq::new(
        head.len(),
        |i: int|
            if head[i].kind is Phi {
                edit::nop()
            } else {
                head[i]
            },
    );
    assert(kept[t.at_condition] == head[t.at_condition]);
    assert forall|j: int| 0 <= j < kept.len() && j != t.at_condition implies (
    #[trigger] kept[j]).result != Some(fr.condition) by {
        if head[j].result == Some(fr.condition) {
            lemma_result(f, fr.header, j, fr.condition);
            lemma_result(f, fr.header, t.at_condition, fr.condition);
        }
    }
    lemma_first_defining(kept, fr.condition, 0, t.at_condition);
    let now = g.block(fr.header).insts;
    assert(now == loop_memcpy::header_insts(f, p));
    assert(now == kept.update(
        t.at_condition,
        InstView {
            result: Some(fr.condition),
            kind: KindView::ICompare {
                op: CompareOp::Lt,
                lhs: fr.induction.initial,
                rhs: fr.bound,
            },
        },
    ));
    assert forall|i: int| 0 <= i < now.len() && i != t.at_condition implies (#[trigger] now[i]).kind
        is Nop by {
        assert(now[i] == kept[i]);
        if !(head[i].kind is Phi) {
            assert(head[i].kind is Nop);
        }
    }
}

// ---------------------------------------------------------------------------
// Both functions side by side
// ---------------------------------------------------------------------------

/// Outside of the loop nothing reads its values.
pub open spec fn is_unread(f: FuncView, p: Plan, t: Details) -> bool {
    &&& forall|b: BlockId, i: int|
        f.has_inst(b, i) && b != p.frame.header && b != p.frame.body ==> semantics::ignores(
            (#[trigger] f.inst(b, i)).kind,
            loop_values(p, t),
        )
    &&& forall|b: BlockId|
        f.has_block(b) && b != p.frame.header && b != p.frame.body ==> end_ignores(
            #[trigger] f.terminator(b),
            loop_values(p, t),
        )
}

proof fn lemma_unread(f: FuncView, l: LoopView, p: Plan, t: Details)
    requires
        f.wf(),
        is_closed_loop(f, p.frame),
        is_filled(f, p, t),
        forall|b: BlockId| f.has_block(b) ==> (#[trigger] l.has(b) <==> b == p.frame.header || b
            == p.frame.body),
        loop_memcpy::is_closed(f, l, p.frame),
        !loop_idiom::is_read_outside(f, l, p.frame.condition),
    ensures
        is_unread(f, p, t),
{
    let unread = loop_values(p, t);
    let fr = p.frame;
    let head = f.block(fr.header).insts;
    let body = f.block(fr.body).insts;
    assert forall|w: ValueId| unread.contains(w) implies !#[trigger] loop_idiom::is_read_outside(
        f,
        l,
        w,
    ) by {
        if w == fr.induction.phi {
            lemma_listed_phi(head, head.len() as int, t.at_counter);
        } else if w == t.src {
            lemma_listed_phi(head, head.len() as int, t.at_src);
        } else if w == t.dst {
            lemma_listed_phi(head, head.len() as int, t.at_dst);
        } else if w == fr.induction.next {
            assert(f.inst(fr.body, t.at_next) == body[t.at_next]);
        } else if w == t.src_next {
            assert(f.inst(fr.body, t.at_src_next) == body[t.at_src_next]);
        } else if w == t.dst_next {
            assert(f.inst(fr.body, t.at_dst_next) == body[t.at_dst_next]);
        } else if w == t.datum {
            assert(f.inst(fr.body, t.at_load) == body[t.at_load]);
        }
        let phis = patterns::phi_results(f, fr.header);
        if phis.contains(w) {
            let k = choose|k: int| 0 <= k < phis.len() && phis[k] == w;
            assert(!loop_idiom::is_read_outside(f, l, phis[k]));
        }
    }
    assert forall|b: BlockId, i: int|
        f.has_inst(b, i) && b != fr.header && b != fr.body implies semantics::ignores(
        (#[trigger] f.inst(b, i)).kind,
        unread,
    ) by {
        assert(f.has_block(b) && !l.has(b));
        let list = edit::operands(f.inst(b, i).kind);
        assert forall|k: int| 0 <= k < list.len() implies !unread.contains(#[trigger] list[k]) by {
            let w = list[k];
            assert(list.contains(w));
            assert(loop_idiom::block_reads(f, b, w));
            if unread.contains(w) {
                assert(!loop_idiom::is_read_outside(f, l, w));
            }
        }
    }
    assert forall|b: BlockId| f.has_block(b) && b != fr.header && b != fr.body implies end_ignores(
        #[trigger] f.terminator(b),
        unread,
    ) by {
        assert(!l.has(b));
        let list = edit::terminator_reads(f.terminator(b));
        if list.len() > 0 {
            let w = list[0];
            assert(list.contains(w));
            assert(loop_idiom::block_reads(f, b, w));
            if unread.contains(w) {
                assert(!loop_idiom::is_read_outside(f, l, w));
            }
        }
    }
}

/// The phi is listed.
proof fn lemma_listed_phi(insts: Seq<InstView>, n: int, i: int)
    requires
        0 <= i < n <= insts.len(),
        insts[i].kind is Phi,
        insts[i].result is Some,
    ensures
        patterns::phi_results_below(insts, n).contains(insts[i].result->Some_0),
    decreases n,
{
    let all = patterns::phi_results_below(insts, n);
    let before = patterns::phi_results_below(insts, n - 1);
    if i < n - 1 {
        lemma_listed_phi(insts, n - 1, i);
        let k = choose|k: int| 0 <= k < before.len() && before[k] == insts[i].result->Some_0;
        assert(all[k] == before[k]);
    } else {
        assert(all[before.len() as int] == insts[i].result->Some_0);
    }
}

/// The exit has one more predecessor in the new function, so it has no phi.
proof fn lemma_exit_plain<D, M>(
    f: FuncView,
    g: FuncView,
    m: Meaning<D, M>,
    number: spec_fn(D) -> i32,
    p: Plan,
    t: Details,
)
    requires
        is_ready(f, m, number, p, t),
        is_replaced(f, g, p, t),
        verify::valid(g),
    ensures
        exit_is_plain(f, p),
{
    let exit = p.frame.exit;
    let insts = f.block(exit).insts;
    assert forall|i: int| 0 <= i < insts.len() implies !((#[trigger] insts[i]).kind is Phi)
        || insts[i].result is None by {
        if let KindView::Phi { incomings } = insts[i].kind {
            assert(g.block(exit) == f.block(exit));
            assert(verify::block_valid(g, exit) && verify::block_valid(f, exit));
            assert(verify::inst_valid(g, exit, i) && verify::inst_valid(f, exit, i));
            assert(g.has_inst(exit, i) && g.inst(exit, i) == insts[i]);
            assert(f.inst(exit, i) == insts[i]);
            query::lemma_inst_wf(g, exit, i);
            threading_laws::lemma_succ(g.terminator(p.frame.body), exit);
            threading_laws::lemma_phi_names(g, incomings, exit, p.frame.body);
            let k = choose|k: int| 0 <= k < incomings.len() && (#[trigger] incomings[k]).0
                == p.frame.body;
            assert(cfg::edge(f, incomings[k].0, exit));
            threading_laws::lemma_succ(f.terminator(p.frame.body), exit);
        }
    }
}

/// Wherever the loop is entered, source and destination lie apart.
pub open spec fn stays_apart<D, M>(
    f: FuncView,
    m: Meaning<D, M>,
    p: Plan,
    apart: spec_fn(D, D) -> bool,
    args: Map<ValueId, D>,
    memory: M,
) -> bool {
    forall|s: State<D, M>| #[trigger]
        is_reached(f, m, args, memory, s) ==> (s matches State::Running { block, env, .. } ==> block
            == p.frame.body ==> apart(env[p.initial_dst], env[p.initial_src]))
}

/// The states of the two functions that go together.
pub open spec fn goes_with<D, M>(
    f: FuncView,
    m: Meaning<D, M>,
    number: spec_fn(D) -> i32,
    p: Plan,
    t: Details,
    args: Map<ValueId, D>,
    memory: M,
    s: State<D, M>,
    u: State<D, M>,
) -> bool {
    &&& is_reached(f, m, args, memory, s)
    &&& match (s, u) {
        (
            State::Running { block, env, memory: x },
            State::Running { block: other, env: data, memory: z },
        ) => {
            &&& block == other
            &&& x == z
            &&& f.has_block(block)
            &&& constants_kept(f, m, env)
            &&& alike(env, data, loop_values(p, t))
            &&& block == p.frame.header || block == p.frame.body ==> env[p.frame.induction.phi]
                == env[p.frame.induction.initial] && env[t.src] == env[p.initial_src] && env[t.dst]
                == env[p.initial_dst]
            &&& block == p.frame.body ==> 0 < number(env[p.frame.bound])
        },
        _ => s == u,
    }
}

/// A step outside of the loop.
#[verifier::rlimit(40)]
proof fn lemma_outside<D, M>(
    f: FuncView,
    g: FuncView,
    m: Meaning<D, M>,
    number: spec_fn(D) -> i32,
    p: Plan,
    t: Details,
    args: Map<ValueId, D>,
    memory: M,
    s: State<D, M>,
    u: State<D, M>,
)
    requires
        is_ready(f, m, number, p, t),
        is_replaced(f, g, p, t),
        is_unread(f, p, t),
        goes_with(f, m, number, p, t, args, memory, s, u),
        s matches State::Running { block, .. } ==> block != p.frame.header && block != p.frame.body,
    ensures
        goes_with(
            f,
            m,
            number,
            p,
            t,
            args,
            memory,
            semantics::step(f, m, s),
            semantics::step(g, m, u),
        ),
{
    lemma_reached_on(f, m, args, memory, s, 1);
    semantics::lemma_few_steps(f, m, s);
    if let State::Running { block, env, memory: x } = s {
        let data = u->Running_env;
        let fr = p.frame;
        let unread = loop_values(p, t);
        let insts = f.block(block).insts;
        let n = insts.len() as int;
        assert(g.block(block) == f.block(block));
        assert forall|i: int| 0 <= i < n implies semantics::ignores(
            (#[trigger] insts[i]).kind,
            unread,
        ) by {
            assert(f.has_inst(block, i) && f.inst(block, i) == insts[i]);
        }
        semantics::lemma_executed_alike(m, insts, n, env, data, x, unread);
        meaning_laws::lemma_results_are_computed(f);
        meaning_laws::lemma_execution_keeps_constants(f, m, block, n, env, x);
        let (e1, x1) = semantics::executed(m, insts, n, env, x);
        let d1 = semantics::executed(m, insts, n, data, x).0;
        assert(end_ignores(f.terminator(block), unread));
        assert(g.terminator(block) == f.terminator(block));
        meaning_laws::lemma_targets(f, block);
        query::lemma_terminator_wf(f, block);
        let next = threading_laws::next_block(m, f.terminator(block), e1);
        if let Some(target) = next {
            assert(f.has_block(target));
            assert(cfg::edge(f, block, target));
            assert(target != fr.body);
            let there = f.block(target).insts;
            meaning_laws::lemma_assignment_keeps_constants(
                f,
                m,
                target,
                there.len() as int,
                block,
                e1,
            );
            if target == fr.header {
                lemma_enter_header(f, m, number, p, t, block, e1);
                let r = semantics::phis_assigned(there, there.len() as int, block, e1);
                let here = g.block(target).insts;
                semantics::lemma_nothing_assigned(here, here.len() as int, block, d1);
                assert(alike(r, d1, unread)) by {
                    assert forall|w: ValueId| !unread.contains(w) implies #[trigger] r[w]
                        == d1[w] by {
                        assert(r[w] == entered(p, t, false, e1)[w]);
                        assert(e1[w] == d1[w]);
                    }
                }
                let iv = fr.induction;
                assert(r[iv.phi] == entered(p, t, false, e1)[iv.phi]);
                assert(r[t.src] == entered(p, t, false, e1)[t.src]);
                assert(r[t.dst] == entered(p, t, false, e1)[t.dst]);
                assert(r[iv.initial] == entered(p, t, false, e1)[iv.initial]);
                assert(r[p.initial_src] == entered(p, t, false, e1)[p.initial_src]);
                assert(r[p.initial_dst] == entered(p, t, false, e1)[p.initial_dst]);
            } else {
                assert(g.block(target) == f.block(target));
                assert forall|i: int| 0 <= i < there.len() implies semantics::ignores(
                    (#[trigger] there[i]).kind,
                    unread,
                ) by {
                    assert(f.has_inst(target, i) && f.inst(target, i) == there[i]);
                }
                semantics::lemma_assigned_alike(there, there.len() as int, block, e1, d1, unread);
            }
        }
    }
}

/// A step from the header.
#[verifier::rlimit(40)]
proof fn lemma_at_header<D, M>(
    f: FuncView,
    g: FuncView,
    m: Meaning<D, M>,
    number: spec_fn(D) -> i32,
    p: Plan,
    t: Details,
    args: Map<ValueId, D>,
    memory: M,
    s: State<D, M>,
    u: State<D, M>,
)
    requires
        is_ready(f, m, number, p, t),
        is_replaced(f, g, p, t),
        exit_is_plain(f, p),
        goes_with(f, m, number, p, t, args, memory, s, u),
        s matches State::Running { block, .. } && block == p.frame.header,
    ensures
        goes_with(
            f,
            m,
            number,
            p,
            t,
            args,
            memory,
            semantics::step(f, m, s),
            semantics::step(g, m, u),
        ),
{
    lemma_reached_on(f, m, args, memory, s, 1);
    semantics::lemma_few_steps(f, m, s);
    if let State::Running { block, env, memory: x } = s {
        let data = u->Running_env;
        let fr = p.frame;
        let iv = fr.induction;
        let n = f.block(block).insts.len() as int;
        lemma_run_header(f, m, number, p, t, env, x);
        meaning_laws::lemma_results_are_computed(f);
        meaning_laws::lemma_execution_keeps_constants(f, m, block, n, env, x);
        let d = of_compare(m, CompareOp::Lt, iv.phi, fr.bound, env[iv.phi], env[fr.bound], x);
        let e1 = env.insert(fr.condition, d);
        let now = g.block(block).insts;
        idiom_laws::lemma_single(m, now, t.at_condition, data, x);
        wrapper_laws::lemma_compare_one(
            m,
            fr.condition.0 as int,
            CompareOp::Lt,
            iv.initial,
            fr.bound,
            data,
            x,
        );
        let d2 = of_compare(
            m,
            CompareOp::Lt,
            iv.initial,
            fr.bound,
            data[iv.initial],
            data[fr.bound],
            x,
        );
        let e2 = data.insert(fr.condition, d2);
        assert(semantics::executed(m, now, now.len() as int, data, x) == (e2, x));
        assert(data[iv.initial] == env[iv.initial] && data[fr.bound] == env[fr.bound]);
        lemma_const_number(f, m, number, env, iv.initial);
        assert((m.truth)(d) == (0 < number(env[fr.bound])));
        assert((m.truth)(d2) == (m.truth)(d));
        let body = f.block(fr.body).insts;
        assert forall|k: int| 0 <= k < body.len() implies !((#[trigger] body[k]).kind is Phi) by {
        }
        semantics::lemma_nothing_assigned(body, body.len() as int, block, e1);
        let after = g.block(fr.body).insts;
        assert forall|k: int| 0 <= k < after.len() implies !((#[trigger] after[k]).kind is Phi) by {
        }
        semantics::lemma_nothing_assigned(after, after.len() as int, block, e2);
        let exit = f.block(fr.exit).insts;
        assert(g.block(fr.exit) == f.block(fr.exit));
        semantics::lemma_nothing_assigned(exit, exit.len() as int, block, e1);
        semantics::lemma_nothing_assigned(exit, exit.len() as int, block, e2);
    }
}

/// The step that copies the array goes with the rounds of the loop.
#[verifier::rlimit(40)]
proof fn lemma_at_body<D, M>(
    f: FuncView,
    g: FuncView,
    m: Meaning<D, M>,
    number: spec_fn(D) -> i32,
    apart: spec_fn(D, D) -> bool,
    p: Plan,
    t: Details,
    args: Map<ValueId, D>,
    memory: M,
    s: State<D, M>,
    u: State<D, M>,
) -> (k: nat)
    requires
        is_ready(f, m, number, p, t),
        is_replaced(f, g, p, t),
        exit_is_plain(f, p),
        copies_elements(m, number, apart),
        stays_apart(f, m, p, apart, args, memory),
        goes_with(f, m, number, p, t, args, memory, s, u),
        s matches State::Running { block, .. } && block == p.frame.body,
    ensures
        k >= 1,
        goes_with(
            f,
            m,
            number,
            p,
            t,
            args,
            memory,
            semantics::steps(f, m, s, k),
            semantics::step(g, m, u),
        ),
{
    let env = s->Running_env;
    let x = s->Running_memory;
    let data = u->Running_env;
    let fr = p.frame;
    let iv = fr.induction;
    assert(apart(env[p.initial_dst], env[p.initial_src]));
    assert(env[iv.initial] == m.integer(0)) by {
        assert(f.has_value(iv.initial));
        assert(f.value(iv.initial).kind is Const);
    }
    let (k, last) = lemma_run_loop(f, m, number, p, t, env, x, 0);
    lemma_reached_on(f, m, args, memory, s, k);
    let n = f.block(fr.body).insts.len() as int;
    let now = g.block(fr.body).insts;
    assert(semantics::executed(m, now, 0, data, x) == (data, x));
    idiom_laws::lemma_next_one(m, now, 0, n, data, x);
    let (dst, src, count) = (env[p.initial_dst], env[p.initial_src], env[fr.bound]);
    assert(data[p.initial_dst] == dst && data[p.initial_src] == src && data[fr.bound] == count);
    let x1 = copied_at_once(m, dst, src, count, x);
    assert(one(m, now[n], data, x) == (data, x1)) by {
        let kind = loop_memcpy::copying(p);
        assert(ssa::data_of(kind, data) =~= seq![dst, src, count]);
    }
    assert(semantics::executed(m, now, n + 1, data, x) == (data, x1));
    assert(x1 == copied(m, dst, src, number(count) as int, x));
    let exit = f.block(fr.exit).insts;
    assert(g.block(fr.exit) == f.block(fr.exit));
    semantics::lemma_nothing_assigned(exit, exit.len() as int, fr.body, data);
    assert(alike(last, data, loop_values(p, t))) by {
        assert forall|w: ValueId| !loop_values(p, t).contains(w) implies #[trigger] last[w]
            == data[w] by {
            assert(env[w] == data[w]);
            assert(env[w] == last[w]);
        }
    }
    k
}

/// Replacing a loop that copies an array keeps what every call returns, where
/// copying elements at once is copying them in turn, source and destination lie
/// apart, and nothing behind the loop reads its condition.
pub proof fn condensing_a_loop_keeps_the_meaning<D, M>(
    f: FuncView,
    l: LoopView,
    p: Plan,
    m: Meaning<D, M>,
    number: spec_fn(D) -> i32,
    apart: spec_fn(D, D) -> bool,
    args: Map<ValueId, D>,
    memory: M,
    out: State<D, M>,
)
    requires
        verify::valid(f),
        fits(f),
        entered_once(f),
        stores_give_nothing(f),
        f.has_block(l.header),
        l == loops::loop_at(f, l.header),
        loop_memcpy::plan_at(f, l) == Some(p),
        verify::valid(loop_memcpy::replaced(f, p)),
        !loop_idiom::is_read_outside(f, l, p.frame.condition),
        is_arithmetic(m, number),
        copies_elements(m, number, apart),
        stays_apart(f, m, p, apart, args, memory),
    ensures
        semantics::yields(loop_memcpy::replaced(f, p), m, args, memory, out) == semantics::yields(
            f,
            m,
            args,
            memory,
            out,
        ),
        entered_once(loop_memcpy::replaced(f, p)),
        stores_give_nothing(loop_memcpy::replaced(f, p)),
{
    let g = loop_memcpy::replaced(f, p);
    let t = lemma_filled(f, l, p);
    idiom_laws::lemma_closed_loop(f, l, p.frame);
    assert(is_ready(f, m, number, p, t));
    lemma_replaced(f, m, number, p, t);
    lemma_exit_plain(f, g, m, number, p, t);
    lemma_unread(f, l, p, t);
    lemma_stays_plain(f, g, m, number, p, t);
    lemma_runs_condensed(f, g, m, number, apart, p, t, args, memory, out);
}

/// The runs of both functions go together.
proof fn lemma_runs_condensed<D, M>(
    f: FuncView,
    g: FuncView,
    m: Meaning<D, M>,
    number: spec_fn(D) -> i32,
    apart: spec_fn(D, D) -> bool,
    p: Plan,
    t: Details,
    args: Map<ValueId, D>,
    memory: M,
    out: State<D, M>,
)
    requires
        is_ready(f, m, number, p, t),
        is_replaced(f, g, p, t),
        exit_is_plain(f, p),
        is_unread(f, p, t),
        copies_elements(m, number, apart),
        stays_apart(f, m, p, apart, args, memory),
    ensures
        semantics::yields(g, m, args, memory, out) == semantics::yields(f, m, args, memory, out),
{
    let rel = |s: State<D, M>, u: State<D, M>| goes_with(f, m, number, p, t, args, memory, s, u);
    assert forall|s: State<D, M>, u: State<D, M>| #[trigger]
        semantics::caught_up(f, g, m, rel, s, u) by {
        if rel(s, u) {
            semantics::lemma_few_steps(f, m, s);
            let place = match s {
                State::Running { block, .. } => Some(block),
                _ => None,
            };
            if place == Some(p.frame.body) {
                let k = lemma_at_body(f, g, m, number, apart, p, t, args, memory, s, u);
                assert(rel(semantics::steps(f, m, s, k), semantics::step(g, m, u)));
            } else {
                if place == Some(p.frame.header) {
                    lemma_at_header(f, g, m, number, p, t, args, memory, s, u);
                } else {
                    lemma_outside(f, g, m, number, p, t, args, memory, s, u);
                }
                assert(rel(semantics::steps(f, m, s, 1), semantics::step(g, m, u)));
            }
        }
    }
    assert(semantics::end_alike(rel));
    let s = semantics::start(f, m, args, memory);
    let u = semantics::start(g, m, args, memory);
    assert(semantics::steps(f, m, s, 0) == s);
    assert(is_reached(f, m, args, memory, s));
    assert(semantics::initial(f, m, args) =~= semantics::initial(g, m, args));
    assert(rel(s, u));
    semantics::followers_compute_the_same(f, g, m, rel, args, memory, out);
}

/// The new function is entered once, and its stores have no results.
proof fn lemma_stays_plain<D, M>(
    f: FuncView,
    g: FuncView,
    m: Meaning<D, M>,
    number: spec_fn(D) -> i32,
    p: Plan,
    t: Details,
)
    requires
        is_ready(f, m, number, p, t),
        is_replaced(f, g, p, t),
        entered_once(f),
        stores_give_nothing(f),
    ensures
        entered_once(g),
        stores_give_nothing(g),
{
    let fr = p.frame;
    assert forall|q: BlockId| g.has_block(q) implies !#[trigger] cfg::edge(g, q, g.entry) by {
        threading_laws::lemma_succ(f.terminator(fr.header), fr.exit);
        assert(cfg::edge(f, fr.header, fr.exit));
        assert(!cfg::edge(f, q, f.entry));
        if q == fr.body {
            threading_laws::lemma_succ(g.terminator(q), g.entry);
        } else if q != fr.header {
            assert(g.block(q) == f.block(q));
        }
    }
    assert forall|b: BlockId, i: int|
        g.has_inst(b, i) && (#[trigger] g.inst(b, i)).kind is Store implies g.inst(b, i).result
        is None by {
        if b != fr.header && b != fr.body {
            assert(g.block(b) == f.block(b));
            assert(f.has_inst(b, i) && f.inst(b, i) == g.inst(b, i));
        } else {
            let insts = g.block(b).insts;
            assert(g.inst(b, i) == insts[i]);
            assert(insts[i].kind is Nop || insts[i].kind is ICompare || insts[i].kind is MemCopy);
        }
    }
}

// ---------------------------------------------------------------------------
// The whole pass
// ---------------------------------------------------------------------------

/// No block outside of the loop reads its condition.
pub open spec fn condition_stays(f: FuncView, p: Plan) -> bool {
    forall|b: BlockId|
        f.has_block(b) && b != p.frame.header && b != p.frame.body ==> !#[trigger]
        loop_idiom::block_reads(f, b, p.frame.condition)
}

/// Every loop that is replaced in up to `fuel` rounds copies between arrays that
/// lie apart, and its condition is read in the loop only.
pub open spec fn copies_apart<D, M>(
    f: FuncView,
    fuel: nat,
    m: Meaning<D, M>,
    apart: spec_fn(D, D) -> bool,
    args: Map<ValueId, D>,
    memory: M,
) -> bool
    decreases fuel,
{
    match loop_memcpy::plan_of(f) {
        Some(p) => fuel > 0 && verify::valid(loop_memcpy::replaced(f, p)) ==> {
            &&& fits(f)
            &&& condition_stays(f, p)
            &&& stays_apart(f, m, p, apart, args, memory)
            &&& copies_apart(
                loop_memcpy::replaced(f, p),
                (fuel - 1) as nat,
                m,
                apart,
                args,
                memory,
            )
        },
        None => true,
    }
}

/// The plan is that of a loop of the list.
proof fn lemma_planned(f: FuncView, list: Seq<LoopView>, k: int) -> (j: int)
    requires
        0 <= k <= list.len(),
        loop_memcpy::plan_from(f, list, k) is Some,
    ensures
        0 <= j < list.len(),
        loop_memcpy::plan_at(f, list[j]) == loop_memcpy::plan_from(f, list, k),
    decreases list.len() - k,
{
    if loop_memcpy::plan_at(f, list[k]) is Some {
        k
    } else {
        lemma_planned(f, list, k + 1)
    }
}

proof fn lemma_rounds<D, M>(
    f: FuncView,
    fuel: nat,
    m: Meaning<D, M>,
    number: spec_fn(D) -> i32,
    apart: spec_fn(D, D) -> bool,
    args: Map<ValueId, D>,
    memory: M,
    out: State<D, M>,
)
    requires
        verify::valid(f),
        entered_once(f),
        stores_give_nothing(f),
        is_arithmetic(m, number),
        copies_elements(m, number, apart),
        copies_apart(f, fuel, m, apart, args, memory),
    ensures
        semantics::yields(loop_memcpy::rounds(f, fuel), m, args, memory, out) == semantics::yields(
            f,
            m,
            args,
            memory,
            out,
        ),
    decreases fuel,
{
    if let Some(p) = loop_memcpy::plan_of(f) {
        let g = loop_memcpy::replaced(f, p);
        if fuel > 0 && verify::valid(g) {
            let list = loops::loops_of(f);
            let k = lemma_planned(f, list, 0);
            let l = list[k];
            loops::lemma_listed_loop(f, k);
            idiom_laws::lemma_closed_loop(f, l, p.frame);
            condensing_a_loop_keeps_the_meaning(f, l, p, m, number, apart, args, memory, out);
            lemma_rounds(g, (fuel - 1) as nat, m, number, apart, args, memory, out);
        }
    }
}

/// The pass keeps what every call returns, where copying elements at once is
/// copying them in turn, the arrays of a loop lie apart, and nothing behind a loop
/// reads its condition.
pub proof fn condensing_keeps_the_meaning<D, M>(
    f: FuncView,
    m: Meaning<D, M>,
    number: spec_fn(D) -> i32,
    apart: spec_fn(D, D) -> bool,
    args: Map<ValueId, D>,
    memory: M,
    out: State<D, M>,
)
    requires
        verify::valid(f),
        entered_once(f),
        stores_give_nothing(f),
        is_arithmetic(m, number),
        copies_elements(m, number, apart),
        copies_apart(f, loop_idiom::stores_in(f), m, apart, args, memory),
    ensures
        semantics::yields(loop_memcpy::condensed(f), m, args, memory, out) == semantics::yields(
            f,
            m,
            args,
            memory,
            out,
        ),
{
    lemma_rounds(f, loop_idiom::stores_in(f), m, number, apart, args, memory, out);
}

} // verus!
