//! What the blocks of the helper do.
use vstd::prelude::*;

use crate::emit;
use crate::ir::{BinaryOp, BlockId, CompareOp, FuncView, InstView, ValueId};
use crate::pass::odd_chain_group::helper::{
    Constants, ADD_BODY, ADD_LOOP, AGGREGATE, BLOCKS, CACHE_BOUND, CACHE_FAILURE, CACHE_LOOKUP,
    CACHE_STORE_DECIDE, CACHE_STORE_DONE, CACHE_STORE_FAILURE, CACHE_STORE_SELECT,
    CACHE_STORE_SUCCESS, CACHE_SUCCESS, COPIES, COPIES_BODY, COPIES_DONE, ENTRY, EVEN, EXIT,
    FAILED_VALUE, FAILURE, ODD_FOUR, ODD_THREE, OUTCOME, OUTCOME_DONE, OUTER, OUTER_LATCH, PARITY,
    SUCCESS, SUCCESSFUL_VALUE, VALUE_DONE,
};
use crate::pass::odd_chain_group::recognize::RecurrenceKind;
use crate::pass::odd_chain_group::shape;
use crate::pass::odd_chain_group::shape::{depths, stands, states};
use crate::pass::range_integer::laws::of_compare;
use crate::pass::simplify_cfg::store_laws::after_store;
use crate::pass::wrapper_laws;
use crate::pass::wrapper_laws::{at, defines, does, element_of, loaded, v};
use crate::semantics;
use crate::semantics::{Meaning, State};
use crate::ssa::one;
use crate::util;

verus! {

/// The helper and its values.
#[derive(Clone, Copy)]
pub struct Layout {
    pub k: Constants,
    pub kind: RecurrenceKind,
    pub n: int,
    pub q: int,
}

/// The function is the helper with this layout.
pub open spec fn is_helper<D, M>(g: FuncView, m: Meaning<D, M>, y: Layout) -> bool {
    &&& stands(g, y.k, y.kind, y.n, y.q)
    &&& g.blocks.len() == BLOCKS
    &&& 0 <= y.n < 100
    &&& y.q == shape::behind(y.kind, y.n)
    &&& m.computes_apart_from_memory()
}

pub open spec fn running<D, M>(b: usize, e: Map<ValueId, D>, x: M) -> State<D, M> {
    State::Running { block: BlockId(b), env: e, memory: x }
}

proof fn lemma_no_phis<D>(insts: Seq<InstView>, pred: BlockId, e: Map<ValueId, D>)
    requires
        forall|i: int| 0 <= i < insts.len() ==> !((#[trigger] insts[i]).kind is Phi),
    ensures
        semantics::phis_assigned(insts, insts.len() as int, pred, e) == e,
{
    semantics::lemma_nothing_assigned(insts, insts.len() as int, pred, e);
}

/// Where a run of this block leads.
pub open spec fn after_entry<D, M>(
    m: Meaning<D, M>,
    y: Layout,
    e: Map<ValueId, D>,
    x: M,
) -> State<D, M> {
    let e1 = e.insert(
        v(y.n + 0),
        m.of_two(BinaryOp::Idiv, y.k.limit, y.k.two, e[y.k.limit], e[y.k.two], x),
    );
    running(OUTER, e1.insert(v(y.n + 1), e1[y.k.one]).insert(v(y.n + 2), e1[y.k.zero]), x)
}

pub proof fn step_entry<D, M>(
    g: FuncView,
    m: Meaning<D, M>,
    y: Layout,
    e: Map<ValueId, D>,
    x: M,
)
    requires
        is_helper(g, m, y),
    ensures
        semantics::step(g, m, running(ENTRY, e, x)) == after_entry(m, y, e, x),
{
    reveal(shape::stands);
    let insts = at(g, ENTRY as int);
    assert(insts == seq![
        defines(y.n + 0, emit::binary(BinaryOp::Idiv, y.k.limit, y.k.two)),
    ]);
    assert(semantics::executed(m, insts, 0, e, x) == (e, x));
    wrapper_laws::lemma_binary_one(m, y.n + 0, BinaryOp::Idiv, y.k.limit, y.k.two, e, x);
    let e1 = e.insert(
        v(y.n + 0),
        m.of_two(BinaryOp::Idiv, y.k.limit, y.k.two, e[y.k.limit], e[y.k.two], x),
    );
    assert(semantics::executed(m, insts, 1, e, x) == (e1, x));
    enter_outer_from_entry(g, m, y, e1);
}

/// Where a run of this block leads.
pub open spec fn after_outer<D, M>(
    m: Meaning<D, M>,
    y: Layout,
    e: Map<ValueId, D>,
    x: M,
) -> State<D, M> {
    let e1 = e.insert(
        v(y.n + 3),
        of_compare(m, CompareOp::Le, v(y.n + 1), y.k.limit, e[v(y.n + 1)], e[y.k.limit], x),
    );
    if (m.truth)(e1[v(y.n + 3)]) {
        running(OUTCOME, e1.insert(v(y.n + 4), e1[v(y.n + 1)]).insert(v(y.n + 5), e1[y.k.zero]), x)
    } else {
        running(EXIT, e1, x)
    }
}

pub proof fn step_outer<D, M>(
    g: FuncView,
    m: Meaning<D, M>,
    y: Layout,
    e: Map<ValueId, D>,
    x: M,
)
    requires
        is_helper(g, m, y),
    ensures
        semantics::step(g, m, running(OUTER, e, x)) == after_outer(m, y, e, x),
{
    reveal(shape::stands);
    let insts = at(g, OUTER as int);
    assert(insts == seq![
        defines(
            y.n + 1,
            emit::phi(seq![(BlockId(ENTRY), y.k.one), (BlockId(OUTER_LATCH), v(y.q + 32))]),
        ),
        defines(
            y.n + 2,
            emit::phi(seq![(BlockId(ENTRY), y.k.zero), (BlockId(OUTER_LATCH), v(y.q + 31))]),
        ),
        defines(y.n + 3, emit::comparison(CompareOp::Le, v(y.n + 1), y.k.limit)),
    ]);
    assert(semantics::executed(m, insts, 0, e, x) == (e, x));
    assert(semantics::executed(m, insts, 1, e, x) == (e, x));
    assert(semantics::executed(m, insts, 2, e, x) == (e, x));
    wrapper_laws::lemma_compare_one(m, y.n + 3, CompareOp::Le, v(y.n + 1), y.k.limit, e, x);
    let e1 = e.insert(
        v(y.n + 3),
        of_compare(m, CompareOp::Le, v(y.n + 1), y.k.limit, e[v(y.n + 1)], e[y.k.limit], x),
    );
    assert(semantics::executed(m, insts, 3, e, x) == (e1, x));
    enter_outcome_from_outer(g, m, y, e1);
    lemma_no_phis(at(g, EXIT as int), BlockId(OUTER), e1);
}

/// Where a run of this block leads.
pub open spec fn after_outcome<D, M>(
    m: Meaning<D, M>,
    y: Layout,
    e: Map<ValueId, D>,
    x: M,
) -> State<D, M> {
    let e1 = e.insert(
        v(y.n + 6),
        of_compare(m, CompareOp::Eq, v(y.n + 4), y.k.one, e[v(y.n + 4)], e[y.k.one], x),
    );
    if (m.truth)(e1[v(y.n + 6)]) {
        running(SUCCESS, e1, x)
    } else {
        running(PARITY, e1, x)
    }
}

pub proof fn step_outcome<D, M>(
    g: FuncView,
    m: Meaning<D, M>,
    y: Layout,
    e: Map<ValueId, D>,
    x: M,
)
    requires
        is_helper(g, m, y),
    ensures
        semantics::step(g, m, running(OUTCOME, e, x)) == after_outcome(m, y, e, x),
{
    reveal(shape::stands);
    let insts = at(g, OUTCOME as int);
    assert(insts == seq![
        defines(y.n + 4, emit::phi(states(y.kind, y.n))),
        defines(y.n + 5, emit::phi(depths(y.k, y.kind, y.n))),
        defines(y.n + 6, emit::comparison(CompareOp::Eq, v(y.n + 4), y.k.one)),
    ]);
    assert(semantics::executed(m, insts, 0, e, x) == (e, x));
    assert(semantics::executed(m, insts, 1, e, x) == (e, x));
    assert(semantics::executed(m, insts, 2, e, x) == (e, x));
    wrapper_laws::lemma_compare_one(m, y.n + 6, CompareOp::Eq, v(y.n + 4), y.k.one, e, x);
    let e1 = e.insert(
        v(y.n + 6),
        of_compare(m, CompareOp::Eq, v(y.n + 4), y.k.one, e[v(y.n + 4)], e[y.k.one], x),
    );
    assert(semantics::executed(m, insts, 3, e, x) == (e1, x));
    lemma_no_phis(at(g, SUCCESS as int), BlockId(OUTCOME), e1);
    lemma_no_phis(at(g, PARITY as int), BlockId(OUTCOME), e1);
}

/// Where a run of this block leads.
pub open spec fn after_success<D, M>(
    m: Meaning<D, M>,
    y: Layout,
    e: Map<ValueId, D>,
    x: M,
) -> State<D, M> {
    running(OUTCOME_DONE, e.insert(v(y.q + 0), e[v(y.n + 5)]), x)
}

pub proof fn step_success<D, M>(
    g: FuncView,
    m: Meaning<D, M>,
    y: Layout,
    e: Map<ValueId, D>,
    x: M,
)
    requires
        is_helper(g, m, y),
    ensures
        semantics::step(g, m, running(SUCCESS, e, x)) == after_success(m, y, e, x),
{
    reveal(shape::stands);
    let insts = at(g, SUCCESS as int);
    assert(insts == Seq::<InstView>::empty());
    assert(semantics::executed(m, insts, 0, e, x) == (e, x));
    enter_outcome_done_from_success(g, m, y, e);
}

/// Where a run of this block leads.
pub open spec fn after_parity<D, M>(
    m: Meaning<D, M>,
    y: Layout,
    e: Map<ValueId, D>,
    x: M,
) -> State<D, M> {
    let e1 = e.insert(
        v(y.n + 7),
        m.of_two(BinaryOp::Iand, v(y.n + 4), y.k.one, e[v(y.n + 4)], e[y.k.one], x),
    );
    let e2 = e1.insert(
        v(y.n + 8),
        of_compare(m, CompareOp::Eq, v(y.n + 7), y.k.zero, e1[v(y.n + 7)], e1[y.k.zero], x),
    );
    if (m.truth)(e2[v(y.n + 8)]) {
        running(EVEN, e2, x)
    } else {
        running(CACHE_BOUND, e2, x)
    }
}

pub proof fn step_parity<D, M>(
    g: FuncView,
    m: Meaning<D, M>,
    y: Layout,
    e: Map<ValueId, D>,
    x: M,
)
    requires
        is_helper(g, m, y),
    ensures
        semantics::step(g, m, running(PARITY, e, x)) == after_parity(m, y, e, x),
{
    reveal(shape::stands);
    let insts = at(g, PARITY as int);
    assert(insts == seq![
        defines(y.n + 7, emit::binary(BinaryOp::Iand, v(y.n + 4), y.k.one)),
        defines(y.n + 8, emit::comparison(CompareOp::Eq, v(y.n + 7), y.k.zero)),
    ]);
    assert(semantics::executed(m, insts, 0, e, x) == (e, x));
    wrapper_laws::lemma_binary_one(m, y.n + 7, BinaryOp::Iand, v(y.n + 4), y.k.one, e, x);
    let e1 = e.insert(
        v(y.n + 7),
        m.of_two(BinaryOp::Iand, v(y.n + 4), y.k.one, e[v(y.n + 4)], e[y.k.one], x),
    );
    assert(semantics::executed(m, insts, 1, e, x) == (e1, x));
    wrapper_laws::lemma_compare_one(m, y.n + 8, CompareOp::Eq, v(y.n + 7), y.k.zero, e1, x);
    let e2 = e1.insert(
        v(y.n + 8),
        of_compare(m, CompareOp::Eq, v(y.n + 7), y.k.zero, e1[v(y.n + 7)], e1[y.k.zero], x),
    );
    assert(semantics::executed(m, insts, 2, e, x) == (e2, x));
    lemma_no_phis(at(g, EVEN as int), BlockId(PARITY), e2);
    lemma_no_phis(at(g, CACHE_BOUND as int), BlockId(PARITY), e2);
}

/// Where a run of this block leads.
pub open spec fn after_even<D, M>(
    m: Meaning<D, M>,
    y: Layout,
    e: Map<ValueId, D>,
    x: M,
) -> State<D, M> {
    let e1 = e.insert(
        v(y.n + 9),
        m.of_two(BinaryOp::Idiv, v(y.n + 4), y.k.two, e[v(y.n + 4)], e[y.k.two], x),
    );
    let e2 = e1.insert(
        v(y.n + 10),
        m.of_two(BinaryOp::Iadd, v(y.n + 5), y.k.one, e1[v(y.n + 5)], e1[y.k.one], x),
    );
    running(OUTCOME, e2.insert(v(y.n + 4), e2[v(y.n + 9)]).insert(v(y.n + 5), e2[v(y.n + 10)]), x)
}

pub proof fn step_even<D, M>(
    g: FuncView,
    m: Meaning<D, M>,
    y: Layout,
    e: Map<ValueId, D>,
    x: M,
)
    requires
        is_helper(g, m, y),
    ensures
        semantics::step(g, m, running(EVEN, e, x)) == after_even(m, y, e, x),
{
    reveal(shape::stands);
    let insts = at(g, EVEN as int);
    assert(insts == seq![
        defines(y.n + 9, emit::binary(BinaryOp::Idiv, v(y.n + 4), y.k.two)),
        defines(y.n + 10, emit::binary(BinaryOp::Iadd, v(y.n + 5), y.k.one)),
    ]);
    assert(semantics::executed(m, insts, 0, e, x) == (e, x));
    wrapper_laws::lemma_binary_one(m, y.n + 9, BinaryOp::Idiv, v(y.n + 4), y.k.two, e, x);
    let e1 = e.insert(
        v(y.n + 9),
        m.of_two(BinaryOp::Idiv, v(y.n + 4), y.k.two, e[v(y.n + 4)], e[y.k.two], x),
    );
    assert(semantics::executed(m, insts, 1, e, x) == (e1, x));
    wrapper_laws::lemma_binary_one(m, y.n + 10, BinaryOp::Iadd, v(y.n + 5), y.k.one, e1, x);
    let e2 = e1.insert(
        v(y.n + 10),
        m.of_two(BinaryOp::Iadd, v(y.n + 5), y.k.one, e1[v(y.n + 5)], e1[y.k.one], x),
    );
    assert(semantics::executed(m, insts, 2, e, x) == (e2, x));
    enter_outcome_from_even(g, m, y, e2);
}

/// Where a run of this block leads.
pub open spec fn after_cache_bound<D, M>(
    m: Meaning<D, M>,
    y: Layout,
    e: Map<ValueId, D>,
    x: M,
) -> State<D, M> {
    let e1 = e.insert(
        v(y.n + 11),
        of_compare(m, CompareOp::Lt, v(y.n + 4), v(y.n + 1), e[v(y.n + 4)], e[v(y.n + 1)], x),
    );
    let e2 = e1.insert(
        v(y.n + 12),
        of_compare(
            m,
            CompareOp::Le,
            v(y.n + 4),
            y.k.cache_state_limit,
            e1[v(y.n + 4)],
            e1[y.k.cache_state_limit],
            x,
        ),
    );
    let e3 = e2.insert(
        v(y.n + 13),
        m.of_two(BinaryOp::And, v(y.n + 11), v(y.n + 12), e2[v(y.n + 11)], e2[v(y.n + 12)], x),
    );
    if (m.truth)(e3[v(y.n + 13)]) {
        running(CACHE_LOOKUP, e3, x)
    } else {
        running(ODD_THREE, e3, x)
    }
}

pub proof fn step_cache_bound<D, M>(
    g: FuncView,
    m: Meaning<D, M>,
    y: Layout,
    e: Map<ValueId, D>,
    x: M,
)
    requires
        is_helper(g, m, y),
    ensures
        semantics::step(g, m, running(CACHE_BOUND, e, x)) == after_cache_bound(m, y, e, x),
{
    reveal(shape::stands);
    let insts = at(g, CACHE_BOUND as int);
    assert(insts == seq![
        defines(y.n + 11, emit::comparison(CompareOp::Lt, v(y.n + 4), v(y.n + 1))),
        defines(y.n + 12, emit::comparison(CompareOp::Le, v(y.n + 4), y.k.cache_state_limit)),
        defines(y.n + 13, emit::binary(BinaryOp::And, v(y.n + 11), v(y.n + 12))),
    ]);
    assert(semantics::executed(m, insts, 0, e, x) == (e, x));
    wrapper_laws::lemma_compare_one(m, y.n + 11, CompareOp::Lt, v(y.n + 4), v(y.n + 1), e, x);
    let e1 = e.insert(
        v(y.n + 11),
        of_compare(m, CompareOp::Lt, v(y.n + 4), v(y.n + 1), e[v(y.n + 4)], e[v(y.n + 1)], x),
    );
    assert(semantics::executed(m, insts, 1, e, x) == (e1, x));
    wrapper_laws::lemma_compare_one(
        m,
        y.n + 12,
        CompareOp::Le,
        v(y.n + 4),
        y.k.cache_state_limit,
        e1,
        x,
    );
    let e2 = e1.insert(
        v(y.n + 12),
        of_compare(
            m,
            CompareOp::Le,
            v(y.n + 4),
            y.k.cache_state_limit,
            e1[v(y.n + 4)],
            e1[y.k.cache_state_limit],
            x,
        ),
    );
    assert(semantics::executed(m, insts, 2, e, x) == (e2, x));
    wrapper_laws::lemma_binary_one(m, y.n + 13, BinaryOp::And, v(y.n + 11), v(y.n + 12), e2, x);
    let e3 = e2.insert(
        v(y.n + 13),
        m.of_two(BinaryOp::And, v(y.n + 11), v(y.n + 12), e2[v(y.n + 11)], e2[v(y.n + 12)], x),
    );
    assert(semantics::executed(m, insts, 3, e, x) == (e3, x));
    lemma_no_phis(at(g, CACHE_LOOKUP as int), BlockId(CACHE_BOUND), e3);
    lemma_no_phis(at(g, ODD_THREE as int), BlockId(CACHE_BOUND), e3);
}

/// Where a run of this block leads.
pub open spec fn after_cache_lookup<D, M>(
    m: Meaning<D, M>,
    y: Layout,
    e: Map<ValueId, D>,
    x: M,
) -> State<D, M> {
    let e1 = e.insert(
        v(y.n + 14),
        m.of_two(BinaryOp::Idiv, v(y.n + 4), y.k.two, e[v(y.n + 4)], e[y.k.two], x),
    );
    let e2 = e1.insert(
        v(y.n + 15),
        element_of(m, e1[y.k.cache_ptr], e1[y.k.zero], e1[v(y.n + 14)], x),
    );
    let e3 = e2.insert(v(y.n + 16), loaded(m, e2[v(y.n + 15)], x).0);
    let x1 = loaded(m, e2[v(y.n + 15)], x).1;
    let e4 = e3.insert(
        v(y.n + 17),
        of_compare(m, CompareOp::Lt, v(y.n + 16), y.k.zero, e3[v(y.n + 16)], e3[y.k.zero], x1),
    );
    if (m.truth)(e4[v(y.n + 17)]) {
        running(CACHE_FAILURE, e4, x1)
    } else {
        running(CACHE_SUCCESS, e4, x1)
    }
}

pub proof fn step_cache_lookup<D, M>(
    g: FuncView,
    m: Meaning<D, M>,
    y: Layout,
    e: Map<ValueId, D>,
    x: M,
)
    requires
        is_helper(g, m, y),
    ensures
        semantics::step(g, m, running(CACHE_LOOKUP, e, x)) == after_cache_lookup(m, y, e, x),
{
    reveal(shape::stands);
    let insts = at(g, CACHE_LOOKUP as int);
    assert(insts == seq![
        defines(y.n + 14, emit::binary(BinaryOp::Idiv, v(y.n + 4), y.k.two)),
        defines(y.n + 15, emit::element(y.k.cache_ptr, y.k.zero, v(y.n + 14))),
        defines(y.n + 16, emit::load(v(y.n + 15))),
        defines(y.n + 17, emit::comparison(CompareOp::Lt, v(y.n + 16), y.k.zero)),
    ]);
    assert(semantics::executed(m, insts, 0, e, x) == (e, x));
    wrapper_laws::lemma_binary_one(m, y.n + 14, BinaryOp::Idiv, v(y.n + 4), y.k.two, e, x);
    let e1 = e.insert(
        v(y.n + 14),
        m.of_two(BinaryOp::Idiv, v(y.n + 4), y.k.two, e[v(y.n + 4)], e[y.k.two], x),
    );
    assert(semantics::executed(m, insts, 1, e, x) == (e1, x));
    wrapper_laws::lemma_element_one(m, y.n + 15, y.k.cache_ptr, y.k.zero, v(y.n + 14), e1, x);
    let e2 = e1.insert(
        v(y.n + 15),
        element_of(m, e1[y.k.cache_ptr], e1[y.k.zero], e1[v(y.n + 14)], x),
    );
    assert(semantics::executed(m, insts, 2, e, x) == (e2, x));
    wrapper_laws::lemma_load_one(m, y.n + 16, v(y.n + 15), e2, x);
    let e3 = e2.insert(v(y.n + 16), loaded(m, e2[v(y.n + 15)], x).0);
    let x1 = loaded(m, e2[v(y.n + 15)], x).1;
    assert(semantics::executed(m, insts, 3, e, x) == (e3, x1));
    wrapper_laws::lemma_compare_one(m, y.n + 17, CompareOp::Lt, v(y.n + 16), y.k.zero, e3, x1);
    let e4 = e3.insert(
        v(y.n + 17),
        of_compare(m, CompareOp::Lt, v(y.n + 16), y.k.zero, e3[v(y.n + 16)], e3[y.k.zero], x1),
    );
    assert(semantics::executed(m, insts, 4, e, x) == (e4, x1));
    lemma_no_phis(at(g, CACHE_FAILURE as int), BlockId(CACHE_LOOKUP), e4);
    lemma_no_phis(at(g, CACHE_SUCCESS as int), BlockId(CACHE_LOOKUP), e4);
}

/// Where a run of this block leads.
pub open spec fn after_cache_success<D, M>(
    m: Meaning<D, M>,
    y: Layout,
    e: Map<ValueId, D>,
    x: M,
) -> State<D, M> {
    let e1 = e.insert(
        v(y.n + 18),
        m.of_two(BinaryOp::Isub, v(y.n + 16), y.k.one, e[v(y.n + 16)], e[y.k.one], x),
    );
    let e2 = e1.insert(
        v(y.n + 19),
        m.of_two(BinaryOp::Iadd, v(y.n + 5), v(y.n + 18), e1[v(y.n + 5)], e1[v(y.n + 18)], x),
    );
    running(OUTCOME_DONE, e2.insert(v(y.q + 0), e2[v(y.n + 19)]), x)
}

pub proof fn step_cache_success<D, M>(
    g: FuncView,
    m: Meaning<D, M>,
    y: Layout,
    e: Map<ValueId, D>,
    x: M,
)
    requires
        is_helper(g, m, y),
    ensures
        semantics::step(g, m, running(CACHE_SUCCESS, e, x)) == after_cache_success(m, y, e, x),
{
    reveal(shape::stands);
    let insts = at(g, CACHE_SUCCESS as int);
    assert(insts == seq![
        defines(y.n + 18, emit::binary(BinaryOp::Isub, v(y.n + 16), y.k.one)),
        defines(y.n + 19, emit::binary(BinaryOp::Iadd, v(y.n + 5), v(y.n + 18))),
    ]);
    assert(semantics::executed(m, insts, 0, e, x) == (e, x));
    wrapper_laws::lemma_binary_one(m, y.n + 18, BinaryOp::Isub, v(y.n + 16), y.k.one, e, x);
    let e1 = e.insert(
        v(y.n + 18),
        m.of_two(BinaryOp::Isub, v(y.n + 16), y.k.one, e[v(y.n + 16)], e[y.k.one], x),
    );
    assert(semantics::executed(m, insts, 1, e, x) == (e1, x));
    wrapper_laws::lemma_binary_one(m, y.n + 19, BinaryOp::Iadd, v(y.n + 5), v(y.n + 18), e1, x);
    let e2 = e1.insert(
        v(y.n + 19),
        m.of_two(BinaryOp::Iadd, v(y.n + 5), v(y.n + 18), e1[v(y.n + 5)], e1[v(y.n + 18)], x),
    );
    assert(semantics::executed(m, insts, 2, e, x) == (e2, x));
    enter_outcome_done_from_cache_success(g, m, y, e2);
}

/// Where a run of this block leads.
pub open spec fn after_cache_failure<D, M>(
    m: Meaning<D, M>,
    y: Layout,
    e: Map<ValueId, D>,
    x: M,
) -> State<D, M> {
    running(OUTCOME_DONE, e.insert(v(y.q + 0), e[y.k.minus_one]), x)
}

pub proof fn step_cache_failure<D, M>(
    g: FuncView,
    m: Meaning<D, M>,
    y: Layout,
    e: Map<ValueId, D>,
    x: M,
)
    requires
        is_helper(g, m, y),
    ensures
        semantics::step(g, m, running(CACHE_FAILURE, e, x)) == after_cache_failure(m, y, e, x),
{
    reveal(shape::stands);
    let insts = at(g, CACHE_FAILURE as int);
    assert(insts == Seq::<InstView>::empty());
    assert(semantics::executed(m, insts, 0, e, x) == (e, x));
    enter_outcome_done_from_cache_failure(g, m, y, e);
}

/// Where a run of this block leads.
pub open spec fn after_odd_three<D, M>(
    m: Meaning<D, M>,
    y: Layout,
    e: Map<ValueId, D>,
    x: M,
) -> State<D, M> {
    let e1 = e.insert(
        v(y.n + 20),
        m.of_two(BinaryOp::Imul, v(y.n + 4), y.k.three, e[v(y.n + 4)], e[y.k.three], x),
    );
    let e2 = e1.insert(
        v(y.n + 21),
        m.of_two(BinaryOp::Iadd, v(y.n + 20), y.k.one, e1[v(y.n + 20)], e1[y.k.one], x),
    );
    let e3 = e2.insert(
        v(y.n + 22),
        m.of_two(BinaryOp::Iadd, v(y.n + 5), y.k.one, e2[v(y.n + 5)], e2[y.k.one], x),
    );
    let e4 = e3.insert(
        v(y.n + 23),
        of_compare(m, CompareOp::Le, v(y.n + 21), y.k.limit, e3[v(y.n + 21)], e3[y.k.limit], x),
    );
    if (m.truth)(e4[v(y.n + 23)]) {
        running(
            OUTCOME,
            e4.insert(v(y.n + 4), e4[v(y.n + 21)]).insert(v(y.n + 5), e4[v(y.n + 22)]),
            x,
        )
    } else if y.kind == RecurrenceKind::ThreeOnly {
        running(FAILURE, e4, x)
    } else {
        running(ODD_FOUR, e4, x)
    }
}

pub proof fn step_odd_three<D, M>(
    g: FuncView,
    m: Meaning<D, M>,
    y: Layout,
    e: Map<ValueId, D>,
    x: M,
)
    requires
        is_helper(g, m, y),
    ensures
        semantics::step(g, m, running(ODD_THREE, e, x)) == after_odd_three(m, y, e, x),
{
    reveal(shape::stands);
    let insts = at(g, ODD_THREE as int);
    assert(insts == seq![
        defines(y.n + 20, emit::binary(BinaryOp::Imul, v(y.n + 4), y.k.three)),
        defines(y.n + 21, emit::binary(BinaryOp::Iadd, v(y.n + 20), y.k.one)),
        defines(y.n + 22, emit::binary(BinaryOp::Iadd, v(y.n + 5), y.k.one)),
        defines(y.n + 23, emit::comparison(CompareOp::Le, v(y.n + 21), y.k.limit)),
    ]);
    assert(semantics::executed(m, insts, 0, e, x) == (e, x));
    wrapper_laws::lemma_binary_one(m, y.n + 20, BinaryOp::Imul, v(y.n + 4), y.k.three, e, x);
    let e1 = e.insert(
        v(y.n + 20),
        m.of_two(BinaryOp::Imul, v(y.n + 4), y.k.three, e[v(y.n + 4)], e[y.k.three], x),
    );
    assert(semantics::executed(m, insts, 1, e, x) == (e1, x));
    wrapper_laws::lemma_binary_one(m, y.n + 21, BinaryOp::Iadd, v(y.n + 20), y.k.one, e1, x);
    let e2 = e1.insert(
        v(y.n + 21),
        m.of_two(BinaryOp::Iadd, v(y.n + 20), y.k.one, e1[v(y.n + 20)], e1[y.k.one], x),
    );
    assert(semantics::executed(m, insts, 2, e, x) == (e2, x));
    wrapper_laws::lemma_binary_one(m, y.n + 22, BinaryOp::Iadd, v(y.n + 5), y.k.one, e2, x);
    let e3 = e2.insert(
        v(y.n + 22),
        m.of_two(BinaryOp::Iadd, v(y.n + 5), y.k.one, e2[v(y.n + 5)], e2[y.k.one], x),
    );
    assert(semantics::executed(m, insts, 3, e, x) == (e3, x));
    wrapper_laws::lemma_compare_one(m, y.n + 23, CompareOp::Le, v(y.n + 21), y.k.limit, e3, x);
    let e4 = e3.insert(
        v(y.n + 23),
        of_compare(m, CompareOp::Le, v(y.n + 21), y.k.limit, e3[v(y.n + 21)], e3[y.k.limit], x),
    );
    assert(semantics::executed(m, insts, 4, e, x) == (e4, x));
    enter_outcome_from_odd_three(g, m, y, e4);
    lemma_no_phis(at(g, FAILURE as int), BlockId(ODD_THREE), e4);
    lemma_no_phis(at(g, ODD_FOUR as int), BlockId(ODD_THREE), e4);
}

/// Where a run of this block leads.
pub open spec fn after_odd_four<D, M>(
    m: Meaning<D, M>,
    y: Layout,
    e: Map<ValueId, D>,
    x: M,
) -> State<D, M> {
    let e1 = e.insert(
        v(y.n + 24),
        m.of_two(BinaryOp::Imul, v(y.n + 4), y.k.four, e[v(y.n + 4)], e[y.k.four], x),
    );
    let e2 = e1.insert(
        v(y.n + 25),
        m.of_two(BinaryOp::Iadd, v(y.n + 24), y.k.one, e1[v(y.n + 24)], e1[y.k.one], x),
    );
    let e3 = e2.insert(
        v(y.n + 26),
        m.of_two(BinaryOp::Iadd, v(y.n + 5), y.k.one, e2[v(y.n + 5)], e2[y.k.one], x),
    );
    let e4 = e3.insert(
        v(y.n + 27),
        of_compare(m, CompareOp::Le, v(y.n + 25), y.k.limit, e3[v(y.n + 25)], e3[y.k.limit], x),
    );
    if (m.truth)(e4[v(y.n + 27)]) {
        running(
            OUTCOME,
            e4.insert(v(y.n + 4), e4[v(y.n + 25)]).insert(v(y.n + 5), e4[v(y.n + 26)]),
            x,
        )
    } else {
        running(FAILURE, e4, x)
    }
}

pub proof fn step_odd_four<D, M>(
    g: FuncView,
    m: Meaning<D, M>,
    y: Layout,
    e: Map<ValueId, D>,
    x: M,
)
    requires
        is_helper(g, m, y),
        y.kind == RecurrenceKind::ThreeThenFour,
    ensures
        semantics::step(g, m, running(ODD_FOUR, e, x)) == after_odd_four(m, y, e, x),
{
    reveal(shape::stands);
    let insts = at(g, ODD_FOUR as int);
    assert(insts == seq![
        defines(y.n + 24, emit::binary(BinaryOp::Imul, v(y.n + 4), y.k.four)),
        defines(y.n + 25, emit::binary(BinaryOp::Iadd, v(y.n + 24), y.k.one)),
        defines(y.n + 26, emit::binary(BinaryOp::Iadd, v(y.n + 5), y.k.one)),
        defines(y.n + 27, emit::comparison(CompareOp::Le, v(y.n + 25), y.k.limit)),
    ]);
    assert(semantics::executed(m, insts, 0, e, x) == (e, x));
    wrapper_laws::lemma_binary_one(m, y.n + 24, BinaryOp::Imul, v(y.n + 4), y.k.four, e, x);
    let e1 = e.insert(
        v(y.n + 24),
        m.of_two(BinaryOp::Imul, v(y.n + 4), y.k.four, e[v(y.n + 4)], e[y.k.four], x),
    );
    assert(semantics::executed(m, insts, 1, e, x) == (e1, x));
    wrapper_laws::lemma_binary_one(m, y.n + 25, BinaryOp::Iadd, v(y.n + 24), y.k.one, e1, x);
    let e2 = e1.insert(
        v(y.n + 25),
        m.of_two(BinaryOp::Iadd, v(y.n + 24), y.k.one, e1[v(y.n + 24)], e1[y.k.one], x),
    );
    assert(semantics::executed(m, insts, 2, e, x) == (e2, x));
    wrapper_laws::lemma_binary_one(m, y.n + 26, BinaryOp::Iadd, v(y.n + 5), y.k.one, e2, x);
    let e3 = e2.insert(
        v(y.n + 26),
        m.of_two(BinaryOp::Iadd, v(y.n + 5), y.k.one, e2[v(y.n + 5)], e2[y.k.one], x),
    );
    assert(semantics::executed(m, insts, 3, e, x) == (e3, x));
    wrapper_laws::lemma_compare_one(m, y.n + 27, CompareOp::Le, v(y.n + 25), y.k.limit, e3, x);
    let e4 = e3.insert(
        v(y.n + 27),
        of_compare(m, CompareOp::Le, v(y.n + 25), y.k.limit, e3[v(y.n + 25)], e3[y.k.limit], x),
    );
    assert(semantics::executed(m, insts, 4, e, x) == (e4, x));
    enter_outcome_from_odd_four(g, m, y, e4);
    lemma_no_phis(at(g, FAILURE as int), BlockId(ODD_FOUR), e4);
}

/// Where a run of this block leads.
pub open spec fn after_failure<D, M>(
    m: Meaning<D, M>,
    y: Layout,
    e: Map<ValueId, D>,
    x: M,
) -> State<D, M> {
    running(OUTCOME_DONE, e.insert(v(y.q + 0), e[y.k.minus_one]), x)
}

pub proof fn step_failure<D, M>(
    g: FuncView,
    m: Meaning<D, M>,
    y: Layout,
    e: Map<ValueId, D>,
    x: M,
)
    requires
        is_helper(g, m, y),
    ensures
        semantics::step(g, m, running(FAILURE, e, x)) == after_failure(m, y, e, x),
{
    reveal(shape::stands);
    let insts = at(g, FAILURE as int);
    assert(insts == Seq::<InstView>::empty());
    assert(semantics::executed(m, insts, 0, e, x) == (e, x));
    enter_outcome_done_from_failure(g, m, y, e);
}

/// Where a run of this block leads.
pub open spec fn after_outcome_done<D, M>(
    m: Meaning<D, M>,
    y: Layout,
    e: Map<ValueId, D>,
    x: M,
) -> State<D, M> {
    running(CACHE_STORE_DECIDE, e, x)
}

pub proof fn step_outcome_done<D, M>(
    g: FuncView,
    m: Meaning<D, M>,
    y: Layout,
    e: Map<ValueId, D>,
    x: M,
)
    requires
        is_helper(g, m, y),
    ensures
        semantics::step(g, m, running(OUTCOME_DONE, e, x)) == after_outcome_done(m, y, e, x),
{
    reveal(shape::stands);
    let insts = at(g, OUTCOME_DONE as int);
    assert(insts == seq![
        defines(
            y.q + 0,
            emit::phi(
                seq![
                    (BlockId(SUCCESS), v(y.n + 5)),
                    (BlockId(FAILURE), y.k.minus_one),
                    (BlockId(CACHE_SUCCESS), v(y.n + 19)),
                    (BlockId(CACHE_FAILURE), y.k.minus_one),
                ],
            ),
        ),
    ]);
    assert(semantics::executed(m, insts, 0, e, x) == (e, x));
    assert(semantics::executed(m, insts, 1, e, x) == (e, x));
    lemma_no_phis(at(g, CACHE_STORE_DECIDE as int), BlockId(OUTCOME_DONE), e);
}

/// Where a run of this block leads.
pub open spec fn after_cache_store_decide<D, M>(
    m: Meaning<D, M>,
    y: Layout,
    e: Map<ValueId, D>,
    x: M,
) -> State<D, M> {
    let e1 = e.insert(
        v(y.q + 1),
        of_compare(
            m,
            CompareOp::Le,
            v(y.n + 1),
            y.k.cache_state_limit,
            e[v(y.n + 1)],
            e[y.k.cache_state_limit],
            x,
        ),
    );
    if (m.truth)(e1[v(y.q + 1)]) {
        running(CACHE_STORE_SELECT, e1, x)
    } else {
        running(CACHE_STORE_DONE, e1, x)
    }
}

pub proof fn step_cache_store_decide<D, M>(
    g: FuncView,
    m: Meaning<D, M>,
    y: Layout,
    e: Map<ValueId, D>,
    x: M,
)
    requires
        is_helper(g, m, y),
    ensures
        semantics::step(
            g,
            m,
            running(CACHE_STORE_DECIDE, e, x),
        ) == after_cache_store_decide(m, y, e, x),
{
    reveal(shape::stands);
    let insts = at(g, CACHE_STORE_DECIDE as int);
    assert(insts == seq![
        defines(y.q + 1, emit::comparison(CompareOp::Le, v(y.n + 1), y.k.cache_state_limit)),
    ]);
    assert(semantics::executed(m, insts, 0, e, x) == (e, x));
    wrapper_laws::lemma_compare_one(
        m,
        y.q + 1,
        CompareOp::Le,
        v(y.n + 1),
        y.k.cache_state_limit,
        e,
        x,
    );
    let e1 = e.insert(
        v(y.q + 1),
        of_compare(
            m,
            CompareOp::Le,
            v(y.n + 1),
            y.k.cache_state_limit,
            e[v(y.n + 1)],
            e[y.k.cache_state_limit],
            x,
        ),
    );
    assert(semantics::executed(m, insts, 1, e, x) == (e1, x));
    lemma_no_phis(at(g, CACHE_STORE_SELECT as int), BlockId(CACHE_STORE_DECIDE), e1);
    lemma_no_phis(at(g, CACHE_STORE_DONE as int), BlockId(CACHE_STORE_DECIDE), e1);
}

/// Where a run of this block leads.
pub open spec fn after_cache_store_select<D, M>(
    m: Meaning<D, M>,
    y: Layout,
    e: Map<ValueId, D>,
    x: M,
) -> State<D, M> {
    let e1 = e.insert(
        v(y.q + 2),
        m.of_two(BinaryOp::Idiv, v(y.n + 1), y.k.two, e[v(y.n + 1)], e[y.k.two], x),
    );
    let e2 = e1.insert(
        v(y.q + 3),
        element_of(m, e1[y.k.cache_ptr], e1[y.k.zero], e1[v(y.q + 2)], x),
    );
    let e3 = e2.insert(
        v(y.q + 4),
        of_compare(m, CompareOp::Lt, v(y.q + 0), y.k.zero, e2[v(y.q + 0)], e2[y.k.zero], x),
    );
    if (m.truth)(e3[v(y.q + 4)]) {
        running(CACHE_STORE_FAILURE, e3, x)
    } else {
        running(CACHE_STORE_SUCCESS, e3, x)
    }
}

pub proof fn step_cache_store_select<D, M>(
    g: FuncView,
    m: Meaning<D, M>,
    y: Layout,
    e: Map<ValueId, D>,
    x: M,
)
    requires
        is_helper(g, m, y),
    ensures
        semantics::step(
            g,
            m,
            running(CACHE_STORE_SELECT, e, x),
        ) == after_cache_store_select(m, y, e, x),
{
    reveal(shape::stands);
    let insts = at(g, CACHE_STORE_SELECT as int);
    assert(insts == seq![
        defines(y.q + 2, emit::binary(BinaryOp::Idiv, v(y.n + 1), y.k.two)),
        defines(y.q + 3, emit::element(y.k.cache_ptr, y.k.zero, v(y.q + 2))),
        defines(y.q + 4, emit::comparison(CompareOp::Lt, v(y.q + 0), y.k.zero)),
    ]);
    assert(semantics::executed(m, insts, 0, e, x) == (e, x));
    wrapper_laws::lemma_binary_one(m, y.q + 2, BinaryOp::Idiv, v(y.n + 1), y.k.two, e, x);
    let e1 = e.insert(
        v(y.q + 2),
        m.of_two(BinaryOp::Idiv, v(y.n + 1), y.k.two, e[v(y.n + 1)], e[y.k.two], x),
    );
    assert(semantics::executed(m, insts, 1, e, x) == (e1, x));
    wrapper_laws::lemma_element_one(m, y.q + 3, y.k.cache_ptr, y.k.zero, v(y.q + 2), e1, x);
    let e2 = e1.insert(
        v(y.q + 3),
        element_of(m, e1[y.k.cache_ptr], e1[y.k.zero], e1[v(y.q + 2)], x),
    );
    assert(semantics::executed(m, insts, 2, e, x) == (e2, x));
    wrapper_laws::lemma_compare_one(m, y.q + 4, CompareOp::Lt, v(y.q + 0), y.k.zero, e2, x);
    let e3 = e2.insert(
        v(y.q + 4),
        of_compare(m, CompareOp::Lt, v(y.q + 0), y.k.zero, e2[v(y.q + 0)], e2[y.k.zero], x),
    );
    assert(semantics::executed(m, insts, 3, e, x) == (e3, x));
    lemma_no_phis(at(g, CACHE_STORE_FAILURE as int), BlockId(CACHE_STORE_SELECT), e3);
    lemma_no_phis(at(g, CACHE_STORE_SUCCESS as int), BlockId(CACHE_STORE_SELECT), e3);
}

/// Where a run of this block leads.
pub open spec fn after_cache_store_success<D, M>(
    m: Meaning<D, M>,
    y: Layout,
    e: Map<ValueId, D>,
    x: M,
) -> State<D, M> {
    let e1 = e.insert(
        v(y.q + 5),
        m.of_two(BinaryOp::Iadd, v(y.q + 0), y.k.one, e[v(y.q + 0)], e[y.k.one], x),
    );
    let x1 = after_store(m, e1[v(y.q + 3)], e1[v(y.q + 5)], x);
    running(CACHE_STORE_DONE, e1, x1)
}

pub proof fn step_cache_store_success<D, M>(
    g: FuncView,
    m: Meaning<D, M>,
    y: Layout,
    e: Map<ValueId, D>,
    x: M,
)
    requires
        is_helper(g, m, y),
    ensures
        semantics::step(
            g,
            m,
            running(CACHE_STORE_SUCCESS, e, x),
        ) == after_cache_store_success(m, y, e, x),
{
    reveal(shape::stands);
    let insts = at(g, CACHE_STORE_SUCCESS as int);
    assert(insts == seq![
        defines(y.q + 5, emit::binary(BinaryOp::Iadd, v(y.q + 0), y.k.one)),
        does(emit::store(v(y.q + 3), v(y.q + 5))),
    ]);
    assert(semantics::executed(m, insts, 0, e, x) == (e, x));
    wrapper_laws::lemma_binary_one(m, y.q + 5, BinaryOp::Iadd, v(y.q + 0), y.k.one, e, x);
    let e1 = e.insert(
        v(y.q + 5),
        m.of_two(BinaryOp::Iadd, v(y.q + 0), y.k.one, e[v(y.q + 0)], e[y.k.one], x),
    );
    assert(semantics::executed(m, insts, 1, e, x) == (e1, x));
    wrapper_laws::lemma_store_one(m, v(y.q + 3), v(y.q + 5), e1, x);
    let x1 = after_store(m, e1[v(y.q + 3)], e1[v(y.q + 5)], x);
    assert(semantics::executed(m, insts, 2, e, x) == (e1, x1));
    lemma_no_phis(at(g, CACHE_STORE_DONE as int), BlockId(CACHE_STORE_SUCCESS), e1);
}

/// Where a run of this block leads.
pub open spec fn after_cache_store_failure<D, M>(
    m: Meaning<D, M>,
    y: Layout,
    e: Map<ValueId, D>,
    x: M,
) -> State<D, M> {
    let x1 = after_store(m, e[v(y.q + 3)], e[y.k.minus_one], x);
    running(CACHE_STORE_DONE, e, x1)
}

pub proof fn step_cache_store_failure<D, M>(
    g: FuncView,
    m: Meaning<D, M>,
    y: Layout,
    e: Map<ValueId, D>,
    x: M,
)
    requires
        is_helper(g, m, y),
    ensures
        semantics::step(
            g,
            m,
            running(CACHE_STORE_FAILURE, e, x),
        ) == after_cache_store_failure(m, y, e, x),
{
    reveal(shape::stands);
    let insts = at(g, CACHE_STORE_FAILURE as int);
    assert(insts == seq![
        does(emit::store(v(y.q + 3), y.k.minus_one)),
    ]);
    assert(semantics::executed(m, insts, 0, e, x) == (e, x));
    wrapper_laws::lemma_store_one(m, v(y.q + 3), y.k.minus_one, e, x);
    let x1 = after_store(m, e[v(y.q + 3)], e[y.k.minus_one], x);
    assert(semantics::executed(m, insts, 1, e, x) == (e, x1));
    lemma_no_phis(at(g, CACHE_STORE_DONE as int), BlockId(CACHE_STORE_FAILURE), e);
}

/// Where a run of this block leads.
pub open spec fn after_cache_store_done<D, M>(
    m: Meaning<D, M>,
    y: Layout,
    e: Map<ValueId, D>,
    x: M,
) -> State<D, M> {
    running(COPIES, e.insert(v(y.q + 6), e[v(y.n + 1)]).insert(v(y.q + 7), e[y.k.one]), x)
}

pub proof fn step_cache_store_done<D, M>(
    g: FuncView,
    m: Meaning<D, M>,
    y: Layout,
    e: Map<ValueId, D>,
    x: M,
)
    requires
        is_helper(g, m, y),
    ensures
        semantics::step(
            g,
            m,
            running(CACHE_STORE_DONE, e, x),
        ) == after_cache_store_done(m, y, e, x),
{
    reveal(shape::stands);
    let insts = at(g, CACHE_STORE_DONE as int);
    assert(insts == Seq::<InstView>::empty());
    assert(semantics::executed(m, insts, 0, e, x) == (e, x));
    enter_copies_from_cache_store_done(g, m, y, e);
}

/// Where a run of this block leads.
pub open spec fn after_copies<D, M>(
    m: Meaning<D, M>,
    y: Layout,
    e: Map<ValueId, D>,
    x: M,
) -> State<D, M> {
    let e1 = e.insert(
        v(y.q + 8),
        of_compare(m, CompareOp::Le, v(y.q + 6), v(y.n + 0), e[v(y.q + 6)], e[v(y.n + 0)], x),
    );
    if (m.truth)(e1[v(y.q + 8)]) {
        running(COPIES_BODY, e1, x)
    } else {
        running(COPIES_DONE, e1, x)
    }
}

pub proof fn step_copies<D, M>(
    g: FuncView,
    m: Meaning<D, M>,
    y: Layout,
    e: Map<ValueId, D>,
    x: M,
)
    requires
        is_helper(g, m, y),
    ensures
        semantics::step(g, m, running(COPIES, e, x)) == after_copies(m, y, e, x),
{
    reveal(shape::stands);
    let insts = at(g, COPIES as int);
    assert(insts == seq![
        defines(
            y.q + 6,
            emit::phi(
                seq![(BlockId(CACHE_STORE_DONE), v(y.n + 1)), (BlockId(COPIES_BODY), v(y.q + 9))],
            ),
        ),
        defines(
            y.q + 7,
            emit::phi(
                seq![(BlockId(CACHE_STORE_DONE), y.k.one), (BlockId(COPIES_BODY), v(y.q + 10))],
            ),
        ),
        defines(y.q + 8, emit::comparison(CompareOp::Le, v(y.q + 6), v(y.n + 0))),
    ]);
    assert(semantics::executed(m, insts, 0, e, x) == (e, x));
    assert(semantics::executed(m, insts, 1, e, x) == (e, x));
    assert(semantics::executed(m, insts, 2, e, x) == (e, x));
    wrapper_laws::lemma_compare_one(m, y.q + 8, CompareOp::Le, v(y.q + 6), v(y.n + 0), e, x);
    let e1 = e.insert(
        v(y.q + 8),
        of_compare(m, CompareOp::Le, v(y.q + 6), v(y.n + 0), e[v(y.q + 6)], e[v(y.n + 0)], x),
    );
    assert(semantics::executed(m, insts, 3, e, x) == (e1, x));
    lemma_no_phis(at(g, COPIES_BODY as int), BlockId(COPIES), e1);
    lemma_no_phis(at(g, COPIES_DONE as int), BlockId(COPIES), e1);
}

/// Where a run of this block leads.
pub open spec fn after_copies_body<D, M>(
    m: Meaning<D, M>,
    y: Layout,
    e: Map<ValueId, D>,
    x: M,
) -> State<D, M> {
    let e1 = e.insert(
        v(y.q + 9),
        m.of_two(BinaryOp::Imul, v(y.q + 6), y.k.two, e[v(y.q + 6)], e[y.k.two], x),
    );
    let e2 = e1.insert(
        v(y.q + 10),
        m.of_two(BinaryOp::Iadd, v(y.q + 7), y.k.one, e1[v(y.q + 7)], e1[y.k.one], x),
    );
    running(COPIES, e2.insert(v(y.q + 6), e2[v(y.q + 9)]).insert(v(y.q + 7), e2[v(y.q + 10)]), x)
}

pub proof fn step_copies_body<D, M>(
    g: FuncView,
    m: Meaning<D, M>,
    y: Layout,
    e: Map<ValueId, D>,
    x: M,
)
    requires
        is_helper(g, m, y),
    ensures
        semantics::step(g, m, running(COPIES_BODY, e, x)) == after_copies_body(m, y, e, x),
{
    reveal(shape::stands);
    let insts = at(g, COPIES_BODY as int);
    assert(insts == seq![
        defines(y.q + 9, emit::binary(BinaryOp::Imul, v(y.q + 6), y.k.two)),
        defines(y.q + 10, emit::binary(BinaryOp::Iadd, v(y.q + 7), y.k.one)),
    ]);
    assert(semantics::executed(m, insts, 0, e, x) == (e, x));
    wrapper_laws::lemma_binary_one(m, y.q + 9, BinaryOp::Imul, v(y.q + 6), y.k.two, e, x);
    let e1 = e.insert(
        v(y.q + 9),
        m.of_two(BinaryOp::Imul, v(y.q + 6), y.k.two, e[v(y.q + 6)], e[y.k.two], x),
    );
    assert(semantics::executed(m, insts, 1, e, x) == (e1, x));
    wrapper_laws::lemma_binary_one(m, y.q + 10, BinaryOp::Iadd, v(y.q + 7), y.k.one, e1, x);
    let e2 = e1.insert(
        v(y.q + 10),
        m.of_two(BinaryOp::Iadd, v(y.q + 7), y.k.one, e1[v(y.q + 7)], e1[y.k.one], x),
    );
    assert(semantics::executed(m, insts, 2, e, x) == (e2, x));
    enter_copies_from_copies_body(g, m, y, e2);
}

/// Where a run of this block leads.
pub open spec fn after_copies_done<D, M>(
    m: Meaning<D, M>,
    y: Layout,
    e: Map<ValueId, D>,
    x: M,
) -> State<D, M> {
    let e1 = e.insert(
        v(y.q + 11),
        of_compare(m, CompareOp::Lt, v(y.q + 0), y.k.zero, e[v(y.q + 0)], e[y.k.zero], x),
    );
    if (m.truth)(e1[v(y.q + 11)]) {
        running(FAILED_VALUE, e1, x)
    } else {
        running(SUCCESSFUL_VALUE, e1, x)
    }
}

pub proof fn step_copies_done<D, M>(
    g: FuncView,
    m: Meaning<D, M>,
    y: Layout,
    e: Map<ValueId, D>,
    x: M,
)
    requires
        is_helper(g, m, y),
    ensures
        semantics::step(g, m, running(COPIES_DONE, e, x)) == after_copies_done(m, y, e, x),
{
    reveal(shape::stands);
    let insts = at(g, COPIES_DONE as int);
    assert(insts == seq![
        defines(y.q + 11, emit::comparison(CompareOp::Lt, v(y.q + 0), y.k.zero)),
    ]);
    assert(semantics::executed(m, insts, 0, e, x) == (e, x));
    wrapper_laws::lemma_compare_one(m, y.q + 11, CompareOp::Lt, v(y.q + 0), y.k.zero, e, x);
    let e1 = e.insert(
        v(y.q + 11),
        of_compare(m, CompareOp::Lt, v(y.q + 0), y.k.zero, e[v(y.q + 0)], e[y.k.zero], x),
    );
    assert(semantics::executed(m, insts, 1, e, x) == (e1, x));
    lemma_no_phis(at(g, FAILED_VALUE as int), BlockId(COPIES_DONE), e1);
    lemma_no_phis(at(g, SUCCESSFUL_VALUE as int), BlockId(COPIES_DONE), e1);
}

/// Where a run of this block leads.
pub open spec fn after_failed_value<D, M>(
    m: Meaning<D, M>,
    y: Layout,
    e: Map<ValueId, D>,
    x: M,
) -> State<D, M> {
    running(
        VALUE_DONE,
        e.insert(v(y.q + 12), e[y.k.failure_value]).insert(v(y.q + 13), e[y.k.zero]),
        x,
    )
}

pub proof fn step_failed_value<D, M>(
    g: FuncView,
    m: Meaning<D, M>,
    y: Layout,
    e: Map<ValueId, D>,
    x: M,
)
    requires
        is_helper(g, m, y),
    ensures
        semantics::step(g, m, running(FAILED_VALUE, e, x)) == after_failed_value(m, y, e, x),
{
    reveal(shape::stands);
    let insts = at(g, FAILED_VALUE as int);
    assert(insts == Seq::<InstView>::empty());
    assert(semantics::executed(m, insts, 0, e, x) == (e, x));
    enter_value_done_from_failed_value(g, m, y, e);
}

/// Where a run of this block leads.
pub open spec fn after_successful_value<D, M>(
    m: Meaning<D, M>,
    y: Layout,
    e: Map<ValueId, D>,
    x: M,
) -> State<D, M> {
    running(VALUE_DONE, e.insert(v(y.q + 12), e[v(y.q + 0)]).insert(v(y.q + 13), e[y.k.one]), x)
}

pub proof fn step_successful_value<D, M>(
    g: FuncView,
    m: Meaning<D, M>,
    y: Layout,
    e: Map<ValueId, D>,
    x: M,
)
    requires
        is_helper(g, m, y),
    ensures
        semantics::step(
            g,
            m,
            running(SUCCESSFUL_VALUE, e, x),
        ) == after_successful_value(m, y, e, x),
{
    reveal(shape::stands);
    let insts = at(g, SUCCESSFUL_VALUE as int);
    assert(insts == Seq::<InstView>::empty());
    assert(semantics::executed(m, insts, 0, e, x) == (e, x));
    enter_value_done_from_successful_value(g, m, y, e);
}

/// Where a run of this block leads.
pub open spec fn after_value_done<D, M>(
    m: Meaning<D, M>,
    y: Layout,
    e: Map<ValueId, D>,
    x: M,
) -> State<D, M> {
    let e1 = e.insert(
        v(y.q + 14),
        of_compare(
            m,
            CompareOp::Le,
            v(y.q + 12),
            y.k.safe_base,
            e[v(y.q + 12)],
            e[y.k.safe_base],
            x,
        ),
    );
    if (m.truth)(e1[v(y.q + 14)]) {
        running(AGGREGATE, e1, x)
    } else {
        running(
            ADD_LOOP,
            e1.insert(v(y.q + 23), e1[y.k.zero]).insert(v(y.q + 24), e1[v(y.n + 2)]),
            x,
        )
    }
}

pub proof fn step_value_done<D, M>(
    g: FuncView,
    m: Meaning<D, M>,
    y: Layout,
    e: Map<ValueId, D>,
    x: M,
)
    requires
        is_helper(g, m, y),
    ensures
        semantics::step(g, m, running(VALUE_DONE, e, x)) == after_value_done(m, y, e, x),
{
    reveal(shape::stands);
    let insts = at(g, VALUE_DONE as int);
    assert(insts == seq![
        defines(
            y.q + 12,
            emit::phi(
                seq![
                    (BlockId(FAILED_VALUE), y.k.failure_value),
                    (BlockId(SUCCESSFUL_VALUE), v(y.q + 0)),
                ],
            ),
        ),
        defines(
            y.q + 13,
            emit::phi(
                seq![(BlockId(FAILED_VALUE), y.k.zero), (BlockId(SUCCESSFUL_VALUE), y.k.one)],
            ),
        ),
        defines(y.q + 14, emit::comparison(CompareOp::Le, v(y.q + 12), y.k.safe_base)),
    ]);
    assert(semantics::executed(m, insts, 0, e, x) == (e, x));
    assert(semantics::executed(m, insts, 1, e, x) == (e, x));
    assert(semantics::executed(m, insts, 2, e, x) == (e, x));
    wrapper_laws::lemma_compare_one(m, y.q + 14, CompareOp::Le, v(y.q + 12), y.k.safe_base, e, x);
    let e1 = e.insert(
        v(y.q + 14),
        of_compare(
            m,
            CompareOp::Le,
            v(y.q + 12),
            y.k.safe_base,
            e[v(y.q + 12)],
            e[y.k.safe_base],
            x,
        ),
    );
    assert(semantics::executed(m, insts, 3, e, x) == (e1, x));
    lemma_no_phis(at(g, AGGREGATE as int), BlockId(VALUE_DONE), e1);
    enter_add_loop_from_value_done(g, m, y, e1);
}

/// Where a run of this block leads.
pub open spec fn after_aggregate<D, M>(
    m: Meaning<D, M>,
    y: Layout,
    e: Map<ValueId, D>,
    x: M,
) -> State<D, M> {
    let e1 = e.insert(
        v(y.q + 15),
        m.of_two(BinaryOp::Isub, v(y.q + 7), y.k.one, e[v(y.q + 7)], e[y.k.one], x),
    );
    let e2 = e1.insert(
        v(y.q + 16),
        m.of_two(BinaryOp::Imul, v(y.q + 7), v(y.q + 15), e1[v(y.q + 7)], e1[v(y.q + 15)], x),
    );
    let e3 = e2.insert(
        v(y.q + 17),
        m.of_two(BinaryOp::Idiv, v(y.q + 16), y.k.two, e2[v(y.q + 16)], e2[y.k.two], x),
    );
    let e4 = e3.insert(
        v(y.q + 18),
        m.of_two(BinaryOp::Imul, v(y.q + 12), v(y.q + 7), e3[v(y.q + 12)], e3[v(y.q + 7)], x),
    );
    let e5 = e4.insert(
        v(y.q + 19),
        m.of_two(BinaryOp::Imul, v(y.q + 17), v(y.q + 13), e4[v(y.q + 17)], e4[v(y.q + 13)], x),
    );
    let e6 = e5.insert(
        v(y.q + 20),
        m.of_two(BinaryOp::Iadd, v(y.q + 18), v(y.q + 19), e5[v(y.q + 18)], e5[v(y.q + 19)], x),
    );
    let e7 = e6.insert(
        v(y.q + 21),
        m.of_two(BinaryOp::Iadd, v(y.n + 2), v(y.q + 20), e6[v(y.n + 2)], e6[v(y.q + 20)], x),
    );
    let e8 = e7.insert(
        v(y.q + 22),
        m.of_two(BinaryOp::Imod, v(y.q + 21), y.k.modulus, e7[v(y.q + 21)], e7[y.k.modulus], x),
    );
    running(OUTER_LATCH, e8.insert(v(y.q + 31), e8[v(y.q + 22)]), x)
}

pub proof fn step_aggregate<D, M>(
    g: FuncView,
    m: Meaning<D, M>,
    y: Layout,
    e: Map<ValueId, D>,
    x: M,
)
    requires
        is_helper(g, m, y),
    ensures
        semantics::step(g, m, running(AGGREGATE, e, x)) == after_aggregate(m, y, e, x),
{
    reveal(shape::stands);
    let insts = at(g, AGGREGATE as int);
    assert(insts == seq![
        defines(y.q + 15, emit::binary(BinaryOp::Isub, v(y.q + 7), y.k.one)),
        defines(y.q + 16, emit::binary(BinaryOp::Imul, v(y.q + 7), v(y.q + 15))),
        defines(y.q + 17, emit::binary(BinaryOp::Idiv, v(y.q + 16), y.k.two)),
        defines(y.q + 18, emit::binary(BinaryOp::Imul, v(y.q + 12), v(y.q + 7))),
        defines(y.q + 19, emit::binary(BinaryOp::Imul, v(y.q + 17), v(y.q + 13))),
        defines(y.q + 20, emit::binary(BinaryOp::Iadd, v(y.q + 18), v(y.q + 19))),
        defines(y.q + 21, emit::binary(BinaryOp::Iadd, v(y.n + 2), v(y.q + 20))),
        defines(y.q + 22, emit::binary(BinaryOp::Imod, v(y.q + 21), y.k.modulus)),
    ]);
    assert(semantics::executed(m, insts, 0, e, x) == (e, x));
    wrapper_laws::lemma_binary_one(m, y.q + 15, BinaryOp::Isub, v(y.q + 7), y.k.one, e, x);
    let e1 = e.insert(
        v(y.q + 15),
        m.of_two(BinaryOp::Isub, v(y.q + 7), y.k.one, e[v(y.q + 7)], e[y.k.one], x),
    );
    assert(semantics::executed(m, insts, 1, e, x) == (e1, x));
    wrapper_laws::lemma_binary_one(m, y.q + 16, BinaryOp::Imul, v(y.q + 7), v(y.q + 15), e1, x);
    let e2 = e1.insert(
        v(y.q + 16),
        m.of_two(BinaryOp::Imul, v(y.q + 7), v(y.q + 15), e1[v(y.q + 7)], e1[v(y.q + 15)], x),
    );
    assert(semantics::executed(m, insts, 2, e, x) == (e2, x));
    wrapper_laws::lemma_binary_one(m, y.q + 17, BinaryOp::Idiv, v(y.q + 16), y.k.two, e2, x);
    let e3 = e2.insert(
        v(y.q + 17),
        m.of_two(BinaryOp::Idiv, v(y.q + 16), y.k.two, e2[v(y.q + 16)], e2[y.k.two], x),
    );
    assert(semantics::executed(m, insts, 3, e, x) == (e3, x));
    wrapper_laws::lemma_binary_one(m, y.q + 18, BinaryOp::Imul, v(y.q + 12), v(y.q + 7), e3, x);
    let e4 = e3.insert(
        v(y.q + 18),
        m.of_two(BinaryOp::Imul, v(y.q + 12), v(y.q + 7), e3[v(y.q + 12)], e3[v(y.q + 7)], x),
    );
    assert(semantics::executed(m, insts, 4, e, x) == (e4, x));
    wrapper_laws::lemma_binary_one(m, y.q + 19, BinaryOp::Imul, v(y.q + 17), v(y.q + 13), e4, x);
    let e5 = e4.insert(
        v(y.q + 19),
        m.of_two(BinaryOp::Imul, v(y.q + 17), v(y.q + 13), e4[v(y.q + 17)], e4[v(y.q + 13)], x),
    );
    assert(semantics::executed(m, insts, 5, e, x) == (e5, x));
    wrapper_laws::lemma_binary_one(m, y.q + 20, BinaryOp::Iadd, v(y.q + 18), v(y.q + 19), e5, x);
    let e6 = e5.insert(
        v(y.q + 20),
        m.of_two(BinaryOp::Iadd, v(y.q + 18), v(y.q + 19), e5[v(y.q + 18)], e5[v(y.q + 19)], x),
    );
    assert(semantics::executed(m, insts, 6, e, x) == (e6, x));
    wrapper_laws::lemma_binary_one(m, y.q + 21, BinaryOp::Iadd, v(y.n + 2), v(y.q + 20), e6, x);
    let e7 = e6.insert(
        v(y.q + 21),
        m.of_two(BinaryOp::Iadd, v(y.n + 2), v(y.q + 20), e6[v(y.n + 2)], e6[v(y.q + 20)], x),
    );
    assert(semantics::executed(m, insts, 7, e, x) == (e7, x));
    wrapper_laws::lemma_binary_one(m, y.q + 22, BinaryOp::Imod, v(y.q + 21), y.k.modulus, e7, x);
    let e8 = e7.insert(
        v(y.q + 22),
        m.of_two(BinaryOp::Imod, v(y.q + 21), y.k.modulus, e7[v(y.q + 21)], e7[y.k.modulus], x),
    );
    assert(semantics::executed(m, insts, 8, e, x) == (e8, x));
    enter_outer_latch_from_aggregate(g, m, y, e8);
}

/// Where a run of this block leads.
pub open spec fn after_add_loop<D, M>(
    m: Meaning<D, M>,
    y: Layout,
    e: Map<ValueId, D>,
    x: M,
) -> State<D, M> {
    let e1 = e.insert(
        v(y.q + 25),
        of_compare(m, CompareOp::Lt, v(y.q + 23), v(y.q + 7), e[v(y.q + 23)], e[v(y.q + 7)], x),
    );
    if (m.truth)(e1[v(y.q + 25)]) {
        running(ADD_BODY, e1, x)
    } else {
        running(OUTER_LATCH, e1.insert(v(y.q + 31), e1[v(y.q + 24)]), x)
    }
}

pub proof fn step_add_loop<D, M>(
    g: FuncView,
    m: Meaning<D, M>,
    y: Layout,
    e: Map<ValueId, D>,
    x: M,
)
    requires
        is_helper(g, m, y),
    ensures
        semantics::step(g, m, running(ADD_LOOP, e, x)) == after_add_loop(m, y, e, x),
{
    reveal(shape::stands);
    let insts = at(g, ADD_LOOP as int);
    assert(insts == seq![
        defines(
            y.q + 23,
            emit::phi(seq![(BlockId(VALUE_DONE), y.k.zero), (BlockId(ADD_BODY), v(y.q + 30))]),
        ),
        defines(
            y.q + 24,
            emit::phi(seq![(BlockId(VALUE_DONE), v(y.n + 2)), (BlockId(ADD_BODY), v(y.q + 29))]),
        ),
        defines(y.q + 25, emit::comparison(CompareOp::Lt, v(y.q + 23), v(y.q + 7))),
    ]);
    assert(semantics::executed(m, insts, 0, e, x) == (e, x));
    assert(semantics::executed(m, insts, 1, e, x) == (e, x));
    assert(semantics::executed(m, insts, 2, e, x) == (e, x));
    wrapper_laws::lemma_compare_one(m, y.q + 25, CompareOp::Lt, v(y.q + 23), v(y.q + 7), e, x);
    let e1 = e.insert(
        v(y.q + 25),
        of_compare(m, CompareOp::Lt, v(y.q + 23), v(y.q + 7), e[v(y.q + 23)], e[v(y.q + 7)], x),
    );
    assert(semantics::executed(m, insts, 3, e, x) == (e1, x));
    lemma_no_phis(at(g, ADD_BODY as int), BlockId(ADD_LOOP), e1);
    enter_outer_latch_from_add_loop(g, m, y, e1);
}

/// Where a run of this block leads.
pub open spec fn after_add_body<D, M>(
    m: Meaning<D, M>,
    y: Layout,
    e: Map<ValueId, D>,
    x: M,
) -> State<D, M> {
    let e1 = e.insert(
        v(y.q + 26),
        m.of_two(BinaryOp::Imul, v(y.q + 23), v(y.q + 13), e[v(y.q + 23)], e[v(y.q + 13)], x),
    );
    let e2 = e1.insert(
        v(y.q + 27),
        m.of_two(BinaryOp::Iadd, v(y.q + 12), v(y.q + 26), e1[v(y.q + 12)], e1[v(y.q + 26)], x),
    );
    let e3 = e2.insert(
        v(y.q + 28),
        m.of_two(BinaryOp::Iadd, v(y.q + 24), v(y.q + 27), e2[v(y.q + 24)], e2[v(y.q + 27)], x),
    );
    let e4 = e3.insert(
        v(y.q + 29),
        m.of_two(BinaryOp::Imod, v(y.q + 28), y.k.modulus, e3[v(y.q + 28)], e3[y.k.modulus], x),
    );
    let e5 = e4.insert(
        v(y.q + 30),
        m.of_two(BinaryOp::Iadd, v(y.q + 23), y.k.one, e4[v(y.q + 23)], e4[y.k.one], x),
    );
    running(
        ADD_LOOP,
        e5.insert(v(y.q + 23), e5[v(y.q + 30)]).insert(v(y.q + 24), e5[v(y.q + 29)]),
        x,
    )
}

pub proof fn step_add_body<D, M>(
    g: FuncView,
    m: Meaning<D, M>,
    y: Layout,
    e: Map<ValueId, D>,
    x: M,
)
    requires
        is_helper(g, m, y),
    ensures
        semantics::step(g, m, running(ADD_BODY, e, x)) == after_add_body(m, y, e, x),
{
    reveal(shape::stands);
    let insts = at(g, ADD_BODY as int);
    assert(insts == seq![
        defines(y.q + 26, emit::binary(BinaryOp::Imul, v(y.q + 23), v(y.q + 13))),
        defines(y.q + 27, emit::binary(BinaryOp::Iadd, v(y.q + 12), v(y.q + 26))),
        defines(y.q + 28, emit::binary(BinaryOp::Iadd, v(y.q + 24), v(y.q + 27))),
        defines(y.q + 29, emit::binary(BinaryOp::Imod, v(y.q + 28), y.k.modulus)),
        defines(y.q + 30, emit::binary(BinaryOp::Iadd, v(y.q + 23), y.k.one)),
    ]);
    assert(semantics::executed(m, insts, 0, e, x) == (e, x));
    wrapper_laws::lemma_binary_one(m, y.q + 26, BinaryOp::Imul, v(y.q + 23), v(y.q + 13), e, x);
    let e1 = e.insert(
        v(y.q + 26),
        m.of_two(BinaryOp::Imul, v(y.q + 23), v(y.q + 13), e[v(y.q + 23)], e[v(y.q + 13)], x),
    );
    assert(semantics::executed(m, insts, 1, e, x) == (e1, x));
    wrapper_laws::lemma_binary_one(m, y.q + 27, BinaryOp::Iadd, v(y.q + 12), v(y.q + 26), e1, x);
    let e2 = e1.insert(
        v(y.q + 27),
        m.of_two(BinaryOp::Iadd, v(y.q + 12), v(y.q + 26), e1[v(y.q + 12)], e1[v(y.q + 26)], x),
    );
    assert(semantics::executed(m, insts, 2, e, x) == (e2, x));
    wrapper_laws::lemma_binary_one(m, y.q + 28, BinaryOp::Iadd, v(y.q + 24), v(y.q + 27), e2, x);
    let e3 = e2.insert(
        v(y.q + 28),
        m.of_two(BinaryOp::Iadd, v(y.q + 24), v(y.q + 27), e2[v(y.q + 24)], e2[v(y.q + 27)], x),
    );
    assert(semantics::executed(m, insts, 3, e, x) == (e3, x));
    wrapper_laws::lemma_binary_one(m, y.q + 29, BinaryOp::Imod, v(y.q + 28), y.k.modulus, e3, x);
    let e4 = e3.insert(
        v(y.q + 29),
        m.of_two(BinaryOp::Imod, v(y.q + 28), y.k.modulus, e3[v(y.q + 28)], e3[y.k.modulus], x),
    );
    assert(semantics::executed(m, insts, 4, e, x) == (e4, x));
    wrapper_laws::lemma_binary_one(m, y.q + 30, BinaryOp::Iadd, v(y.q + 23), y.k.one, e4, x);
    let e5 = e4.insert(
        v(y.q + 30),
        m.of_two(BinaryOp::Iadd, v(y.q + 23), y.k.one, e4[v(y.q + 23)], e4[y.k.one], x),
    );
    assert(semantics::executed(m, insts, 5, e, x) == (e5, x));
    enter_add_loop_from_add_body(g, m, y, e5);
}

/// Where a run of this block leads.
pub open spec fn after_outer_latch<D, M>(
    m: Meaning<D, M>,
    y: Layout,
    e: Map<ValueId, D>,
    x: M,
) -> State<D, M> {
    let e1 = e.insert(
        v(y.q + 32),
        m.of_two(BinaryOp::Iadd, v(y.n + 1), y.k.two, e[v(y.n + 1)], e[y.k.two], x),
    );
    running(OUTER, e1.insert(v(y.n + 1), e1[v(y.q + 32)]).insert(v(y.n + 2), e1[v(y.q + 31)]), x)
}

pub proof fn step_outer_latch<D, M>(
    g: FuncView,
    m: Meaning<D, M>,
    y: Layout,
    e: Map<ValueId, D>,
    x: M,
)
    requires
        is_helper(g, m, y),
    ensures
        semantics::step(g, m, running(OUTER_LATCH, e, x)) == after_outer_latch(m, y, e, x),
{
    reveal(shape::stands);
    let insts = at(g, OUTER_LATCH as int);
    assert(insts == seq![
        defines(
            y.q + 31,
            emit::phi(seq![(BlockId(AGGREGATE), v(y.q + 22)), (BlockId(ADD_LOOP), v(y.q + 24))]),
        ),
        defines(y.q + 32, emit::binary(BinaryOp::Iadd, v(y.n + 1), y.k.two)),
    ]);
    assert(semantics::executed(m, insts, 0, e, x) == (e, x));
    assert(semantics::executed(m, insts, 1, e, x) == (e, x));
    wrapper_laws::lemma_binary_one(m, y.q + 32, BinaryOp::Iadd, v(y.n + 1), y.k.two, e, x);
    let e1 = e.insert(
        v(y.q + 32),
        m.of_two(BinaryOp::Iadd, v(y.n + 1), y.k.two, e[v(y.n + 1)], e[y.k.two], x),
    );
    assert(semantics::executed(m, insts, 2, e, x) == (e1, x));
    enter_outer_from_outer_latch(g, m, y, e1);
}

/// Where a run of this block leads.
pub open spec fn after_exit<D, M>(
    m: Meaning<D, M>,
    y: Layout,
    e: Map<ValueId, D>,
    x: M,
) -> State<D, M> {
    State::Returned { value: Some(e[v(y.n + 2)]), memory: x }
}

pub proof fn step_exit<D, M>(
    g: FuncView,
    m: Meaning<D, M>,
    y: Layout,
    e: Map<ValueId, D>,
    x: M,
)
    requires
        is_helper(g, m, y),
    ensures
        semantics::step(g, m, running(EXIT, e, x)) == after_exit(m, y, e, x),
{
    reveal(shape::stands);
    let insts = at(g, EXIT as int);
    assert(insts == Seq::<InstView>::empty());
    assert(semantics::executed(m, insts, 0, e, x) == (e, x));
}

proof fn enter_outer_from_entry<D, M>(g: FuncView, m: Meaning<D, M>, y: Layout, e: Map<ValueId, D>)
    requires
        is_helper(g, m, y),
    ensures
        semantics::phis_assigned(
            at(g, OUTER as int),
            at(g, OUTER as int).len() as int,
            BlockId(ENTRY),
            e,
        ) == e.insert(v(y.n + 1), e[y.k.one]).insert(v(y.n + 2), e[y.k.zero]),
{
    reveal(shape::stands);
    let insts = at(g, OUTER as int);
    assert(insts == seq![
        defines(
            y.n + 1,
            emit::phi(seq![(BlockId(ENTRY), y.k.one), (BlockId(OUTER_LATCH), v(y.q + 32))]),
        ),
        defines(
            y.n + 2,
            emit::phi(seq![(BlockId(ENTRY), y.k.zero), (BlockId(OUTER_LATCH), v(y.q + 31))]),
        ),
        defines(y.n + 3, emit::comparison(CompareOp::Le, v(y.n + 1), y.k.limit)),
    ]);
    assert(semantics::phis_assigned(insts, 0, BlockId(ENTRY), e) == e);
    let l0 = seq![(BlockId(ENTRY), y.k.one), (BlockId(OUTER_LATCH), v(y.q + 32))];
    assert(util::incoming_from(l0, BlockId(ENTRY)) == Some(y.k.one)) by {
        reveal_with_fuel(util::incoming_from, 5);
        lemma_rest(l0);
    }
    let f0 = e.insert(v(y.n + 1), e[y.k.one]);
    assert(semantics::phis_assigned(insts, 1, BlockId(ENTRY), e) == f0);
    let l1 = seq![(BlockId(ENTRY), y.k.zero), (BlockId(OUTER_LATCH), v(y.q + 31))];
    assert(util::incoming_from(l1, BlockId(ENTRY)) == Some(y.k.zero)) by {
        reveal_with_fuel(util::incoming_from, 5);
        lemma_rest(l1);
    }
    let f1 = f0.insert(v(y.n + 2), e[y.k.zero]);
    assert(semantics::phis_assigned(insts, 2, BlockId(ENTRY), e) == f1);
    semantics::lemma_assigned_by_prefix(insts, 2, insts.len() as int, BlockId(ENTRY), e);
}

proof fn enter_outer_from_outer_latch<D, M>(
    g: FuncView,
    m: Meaning<D, M>,
    y: Layout,
    e: Map<ValueId, D>,
)
    requires
        is_helper(g, m, y),
    ensures
        semantics::phis_assigned(
            at(g, OUTER as int),
            at(g, OUTER as int).len() as int,
            BlockId(OUTER_LATCH),
            e,
        ) == e.insert(v(y.n + 1), e[v(y.q + 32)]).insert(v(y.n + 2), e[v(y.q + 31)]),
{
    reveal(shape::stands);
    let insts = at(g, OUTER as int);
    assert(insts == seq![
        defines(
            y.n + 1,
            emit::phi(seq![(BlockId(ENTRY), y.k.one), (BlockId(OUTER_LATCH), v(y.q + 32))]),
        ),
        defines(
            y.n + 2,
            emit::phi(seq![(BlockId(ENTRY), y.k.zero), (BlockId(OUTER_LATCH), v(y.q + 31))]),
        ),
        defines(y.n + 3, emit::comparison(CompareOp::Le, v(y.n + 1), y.k.limit)),
    ]);
    assert(semantics::phis_assigned(insts, 0, BlockId(OUTER_LATCH), e) == e);
    let l0 = seq![(BlockId(ENTRY), y.k.one), (BlockId(OUTER_LATCH), v(y.q + 32))];
    assert(util::incoming_from(l0, BlockId(OUTER_LATCH)) == Some(v(y.q + 32))) by {
        reveal_with_fuel(util::incoming_from, 5);
        lemma_rest(l0);
    }
    let f0 = e.insert(v(y.n + 1), e[v(y.q + 32)]);
    assert(semantics::phis_assigned(insts, 1, BlockId(OUTER_LATCH), e) == f0);
    let l1 = seq![(BlockId(ENTRY), y.k.zero), (BlockId(OUTER_LATCH), v(y.q + 31))];
    assert(util::incoming_from(l1, BlockId(OUTER_LATCH)) == Some(v(y.q + 31))) by {
        reveal_with_fuel(util::incoming_from, 5);
        lemma_rest(l1);
    }
    let f1 = f0.insert(v(y.n + 2), e[v(y.q + 31)]);
    assert(semantics::phis_assigned(insts, 2, BlockId(OUTER_LATCH), e) == f1);
    semantics::lemma_assigned_by_prefix(insts, 2, insts.len() as int, BlockId(OUTER_LATCH), e);
}

proof fn enter_outcome_from_outer<D, M>(
    g: FuncView,
    m: Meaning<D, M>,
    y: Layout,
    e: Map<ValueId, D>,
)
    requires
        is_helper(g, m, y),
    ensures
        semantics::phis_assigned(
            at(g, OUTCOME as int),
            at(g, OUTCOME as int).len() as int,
            BlockId(OUTER),
            e,
        ) == e.insert(v(y.n + 4), e[v(y.n + 1)]).insert(v(y.n + 5), e[y.k.zero]),
{
    reveal(shape::stands);
    let insts = at(g, OUTCOME as int);
    assert(insts == seq![
        defines(y.n + 4, emit::phi(states(y.kind, y.n))),
        defines(y.n + 5, emit::phi(depths(y.k, y.kind, y.n))),
        defines(y.n + 6, emit::comparison(CompareOp::Eq, v(y.n + 4), y.k.one)),
    ]);
    assert(semantics::phis_assigned(insts, 0, BlockId(OUTER), e) == e);
    let l0 = states(y.kind, y.n);
    assert(util::incoming_from(l0, BlockId(OUTER)) == Some(v(y.n + 1))) by {
        reveal_with_fuel(util::incoming_from, 5);
        lemma_rest(l0);
    }
    let f0 = e.insert(v(y.n + 4), e[v(y.n + 1)]);
    assert(semantics::phis_assigned(insts, 1, BlockId(OUTER), e) == f0);
    let l1 = depths(y.k, y.kind, y.n);
    assert(util::incoming_from(l1, BlockId(OUTER)) == Some(y.k.zero)) by {
        reveal_with_fuel(util::incoming_from, 5);
        lemma_rest(l1);
    }
    let f1 = f0.insert(v(y.n + 5), e[y.k.zero]);
    assert(semantics::phis_assigned(insts, 2, BlockId(OUTER), e) == f1);
    semantics::lemma_assigned_by_prefix(insts, 2, insts.len() as int, BlockId(OUTER), e);
}

proof fn enter_outcome_from_even<D, M>(g: FuncView, m: Meaning<D, M>, y: Layout, e: Map<ValueId, D>)
    requires
        is_helper(g, m, y),
    ensures
        semantics::phis_assigned(
            at(g, OUTCOME as int),
            at(g, OUTCOME as int).len() as int,
            BlockId(EVEN),
            e,
        ) == e.insert(v(y.n + 4), e[v(y.n + 9)]).insert(v(y.n + 5), e[v(y.n + 10)]),
{
    reveal(shape::stands);
    let insts = at(g, OUTCOME as int);
    assert(insts == seq![
        defines(y.n + 4, emit::phi(states(y.kind, y.n))),
        defines(y.n + 5, emit::phi(depths(y.k, y.kind, y.n))),
        defines(y.n + 6, emit::comparison(CompareOp::Eq, v(y.n + 4), y.k.one)),
    ]);
    assert(semantics::phis_assigned(insts, 0, BlockId(EVEN), e) == e);
    let l0 = states(y.kind, y.n);
    assert(util::incoming_from(l0, BlockId(EVEN)) == Some(v(y.n + 9))) by {
        reveal_with_fuel(util::incoming_from, 5);
        lemma_rest(l0);
    }
    let f0 = e.insert(v(y.n + 4), e[v(y.n + 9)]);
    assert(semantics::phis_assigned(insts, 1, BlockId(EVEN), e) == f0);
    let l1 = depths(y.k, y.kind, y.n);
    assert(util::incoming_from(l1, BlockId(EVEN)) == Some(v(y.n + 10))) by {
        reveal_with_fuel(util::incoming_from, 5);
        lemma_rest(l1);
    }
    let f1 = f0.insert(v(y.n + 5), e[v(y.n + 10)]);
    assert(semantics::phis_assigned(insts, 2, BlockId(EVEN), e) == f1);
    semantics::lemma_assigned_by_prefix(insts, 2, insts.len() as int, BlockId(EVEN), e);
}

proof fn enter_outcome_from_odd_three<D, M>(
    g: FuncView,
    m: Meaning<D, M>,
    y: Layout,
    e: Map<ValueId, D>,
)
    requires
        is_helper(g, m, y),
    ensures
        semantics::phis_assigned(
            at(g, OUTCOME as int),
            at(g, OUTCOME as int).len() as int,
            BlockId(ODD_THREE),
            e,
        ) == e.insert(v(y.n + 4), e[v(y.n + 21)]).insert(v(y.n + 5), e[v(y.n + 22)]),
{
    reveal(shape::stands);
    let insts = at(g, OUTCOME as int);
    assert(insts == seq![
        defines(y.n + 4, emit::phi(states(y.kind, y.n))),
        defines(y.n + 5, emit::phi(depths(y.k, y.kind, y.n))),
        defines(y.n + 6, emit::comparison(CompareOp::Eq, v(y.n + 4), y.k.one)),
    ]);
    assert(semantics::phis_assigned(insts, 0, BlockId(ODD_THREE), e) == e);
    let l0 = states(y.kind, y.n);
    assert(util::incoming_from(l0, BlockId(ODD_THREE)) == Some(v(y.n + 21))) by {
        reveal_with_fuel(util::incoming_from, 5);
        lemma_rest(l0);
    }
    let f0 = e.insert(v(y.n + 4), e[v(y.n + 21)]);
    assert(semantics::phis_assigned(insts, 1, BlockId(ODD_THREE), e) == f0);
    let l1 = depths(y.k, y.kind, y.n);
    assert(util::incoming_from(l1, BlockId(ODD_THREE)) == Some(v(y.n + 22))) by {
        reveal_with_fuel(util::incoming_from, 5);
        lemma_rest(l1);
    }
    let f1 = f0.insert(v(y.n + 5), e[v(y.n + 22)]);
    assert(semantics::phis_assigned(insts, 2, BlockId(ODD_THREE), e) == f1);
    semantics::lemma_assigned_by_prefix(insts, 2, insts.len() as int, BlockId(ODD_THREE), e);
}

proof fn enter_outcome_from_odd_four<D, M>(
    g: FuncView,
    m: Meaning<D, M>,
    y: Layout,
    e: Map<ValueId, D>,
)
    requires
        is_helper(g, m, y),
        y.kind == RecurrenceKind::ThreeThenFour,
    ensures
        semantics::phis_assigned(
            at(g, OUTCOME as int),
            at(g, OUTCOME as int).len() as int,
            BlockId(ODD_FOUR),
            e,
        ) == e.insert(v(y.n + 4), e[v(y.n + 25)]).insert(v(y.n + 5), e[v(y.n + 26)]),
{
    reveal(shape::stands);
    let insts = at(g, OUTCOME as int);
    assert(insts == seq![
        defines(y.n + 4, emit::phi(states(y.kind, y.n))),
        defines(y.n + 5, emit::phi(depths(y.k, y.kind, y.n))),
        defines(y.n + 6, emit::comparison(CompareOp::Eq, v(y.n + 4), y.k.one)),
    ]);
    assert(semantics::phis_assigned(insts, 0, BlockId(ODD_FOUR), e) == e);
    let l0 = states(y.kind, y.n);
    assert(util::incoming_from(l0, BlockId(ODD_FOUR)) == Some(v(y.n + 25))) by {
        reveal_with_fuel(util::incoming_from, 5);
        lemma_rest(l0);
    }
    let f0 = e.insert(v(y.n + 4), e[v(y.n + 25)]);
    assert(semantics::phis_assigned(insts, 1, BlockId(ODD_FOUR), e) == f0);
    let l1 = depths(y.k, y.kind, y.n);
    assert(util::incoming_from(l1, BlockId(ODD_FOUR)) == Some(v(y.n + 26))) by {
        reveal_with_fuel(util::incoming_from, 5);
        lemma_rest(l1);
    }
    let f1 = f0.insert(v(y.n + 5), e[v(y.n + 26)]);
    assert(semantics::phis_assigned(insts, 2, BlockId(ODD_FOUR), e) == f1);
    semantics::lemma_assigned_by_prefix(insts, 2, insts.len() as int, BlockId(ODD_FOUR), e);
}

proof fn enter_outcome_done_from_success<D, M>(
    g: FuncView,
    m: Meaning<D, M>,
    y: Layout,
    e: Map<ValueId, D>,
)
    requires
        is_helper(g, m, y),
    ensures
        semantics::phis_assigned(
            at(g, OUTCOME_DONE as int),
            at(g, OUTCOME_DONE as int).len() as int,
            BlockId(SUCCESS),
            e,
        ) == e.insert(v(y.q + 0), e[v(y.n + 5)]),
{
    reveal(shape::stands);
    let insts = at(g, OUTCOME_DONE as int);
    assert(insts == seq![
        defines(
            y.q + 0,
            emit::phi(
                seq![
                    (BlockId(SUCCESS), v(y.n + 5)),
                    (BlockId(FAILURE), y.k.minus_one),
                    (BlockId(CACHE_SUCCESS), v(y.n + 19)),
                    (BlockId(CACHE_FAILURE), y.k.minus_one),
                ],
            ),
        ),
    ]);
    assert(semantics::phis_assigned(insts, 0, BlockId(SUCCESS), e) == e);
    let l0 = seq![
        (BlockId(SUCCESS), v(y.n + 5)),
        (BlockId(FAILURE), y.k.minus_one),
        (BlockId(CACHE_SUCCESS), v(y.n + 19)),
        (BlockId(CACHE_FAILURE), y.k.minus_one),
    ];
    assert(util::incoming_from(l0, BlockId(SUCCESS)) == Some(v(y.n + 5))) by {
        reveal_with_fuel(util::incoming_from, 5);
        lemma_rest(l0);
    }
    let f0 = e.insert(v(y.q + 0), e[v(y.n + 5)]);
    assert(semantics::phis_assigned(insts, 1, BlockId(SUCCESS), e) == f0);
    semantics::lemma_assigned_by_prefix(insts, 1, insts.len() as int, BlockId(SUCCESS), e);
}

proof fn enter_outcome_done_from_cache_success<D, M>(
    g: FuncView,
    m: Meaning<D, M>,
    y: Layout,
    e: Map<ValueId, D>,
)
    requires
        is_helper(g, m, y),
    ensures
        semantics::phis_assigned(
            at(g, OUTCOME_DONE as int),
            at(g, OUTCOME_DONE as int).len() as int,
            BlockId(CACHE_SUCCESS),
            e,
        ) == e.insert(v(y.q + 0), e[v(y.n + 19)]),
{
    reveal(shape::stands);
    let insts = at(g, OUTCOME_DONE as int);
    assert(insts == seq![
        defines(
            y.q + 0,
            emit::phi(
                seq![
                    (BlockId(SUCCESS), v(y.n + 5)),
                    (BlockId(FAILURE), y.k.minus_one),
                    (BlockId(CACHE_SUCCESS), v(y.n + 19)),
                    (BlockId(CACHE_FAILURE), y.k.minus_one),
                ],
            ),
        ),
    ]);
    assert(semantics::phis_assigned(insts, 0, BlockId(CACHE_SUCCESS), e) == e);
    let l0 = seq![
        (BlockId(SUCCESS), v(y.n + 5)),
        (BlockId(FAILURE), y.k.minus_one),
        (BlockId(CACHE_SUCCESS), v(y.n + 19)),
        (BlockId(CACHE_FAILURE), y.k.minus_one),
    ];
    assert(util::incoming_from(l0, BlockId(CACHE_SUCCESS)) == Some(v(y.n + 19))) by {
        reveal_with_fuel(util::incoming_from, 5);
        lemma_rest(l0);
    }
    let f0 = e.insert(v(y.q + 0), e[v(y.n + 19)]);
    assert(semantics::phis_assigned(insts, 1, BlockId(CACHE_SUCCESS), e) == f0);
    semantics::lemma_assigned_by_prefix(insts, 1, insts.len() as int, BlockId(CACHE_SUCCESS), e);
}

proof fn enter_outcome_done_from_cache_failure<D, M>(
    g: FuncView,
    m: Meaning<D, M>,
    y: Layout,
    e: Map<ValueId, D>,
)
    requires
        is_helper(g, m, y),
    ensures
        semantics::phis_assigned(
            at(g, OUTCOME_DONE as int),
            at(g, OUTCOME_DONE as int).len() as int,
            BlockId(CACHE_FAILURE),
            e,
        ) == e.insert(v(y.q + 0), e[y.k.minus_one]),
{
    reveal(shape::stands);
    let insts = at(g, OUTCOME_DONE as int);
    assert(insts == seq![
        defines(
            y.q + 0,
            emit::phi(
                seq![
                    (BlockId(SUCCESS), v(y.n + 5)),
                    (BlockId(FAILURE), y.k.minus_one),
                    (BlockId(CACHE_SUCCESS), v(y.n + 19)),
                    (BlockId(CACHE_FAILURE), y.k.minus_one),
                ],
            ),
        ),
    ]);
    assert(semantics::phis_assigned(insts, 0, BlockId(CACHE_FAILURE), e) == e);
    let l0 = seq![
        (BlockId(SUCCESS), v(y.n + 5)),
        (BlockId(FAILURE), y.k.minus_one),
        (BlockId(CACHE_SUCCESS), v(y.n + 19)),
        (BlockId(CACHE_FAILURE), y.k.minus_one),
    ];
    assert(util::incoming_from(l0, BlockId(CACHE_FAILURE)) == Some(y.k.minus_one)) by {
        reveal_with_fuel(util::incoming_from, 5);
        lemma_rest(l0);
    }
    let f0 = e.insert(v(y.q + 0), e[y.k.minus_one]);
    assert(semantics::phis_assigned(insts, 1, BlockId(CACHE_FAILURE), e) == f0);
    semantics::lemma_assigned_by_prefix(insts, 1, insts.len() as int, BlockId(CACHE_FAILURE), e);
}

proof fn enter_outcome_done_from_failure<D, M>(
    g: FuncView,
    m: Meaning<D, M>,
    y: Layout,
    e: Map<ValueId, D>,
)
    requires
        is_helper(g, m, y),
    ensures
        semantics::phis_assigned(
            at(g, OUTCOME_DONE as int),
            at(g, OUTCOME_DONE as int).len() as int,
            BlockId(FAILURE),
            e,
        ) == e.insert(v(y.q + 0), e[y.k.minus_one]),
{
    reveal(shape::stands);
    let insts = at(g, OUTCOME_DONE as int);
    assert(insts == seq![
        defines(
            y.q + 0,
            emit::phi(
                seq![
                    (BlockId(SUCCESS), v(y.n + 5)),
                    (BlockId(FAILURE), y.k.minus_one),
                    (BlockId(CACHE_SUCCESS), v(y.n + 19)),
                    (BlockId(CACHE_FAILURE), y.k.minus_one),
                ],
            ),
        ),
    ]);
    assert(semantics::phis_assigned(insts, 0, BlockId(FAILURE), e) == e);
    let l0 = seq![
        (BlockId(SUCCESS), v(y.n + 5)),
        (BlockId(FAILURE), y.k.minus_one),
        (BlockId(CACHE_SUCCESS), v(y.n + 19)),
        (BlockId(CACHE_FAILURE), y.k.minus_one),
    ];
    assert(util::incoming_from(l0, BlockId(FAILURE)) == Some(y.k.minus_one)) by {
        reveal_with_fuel(util::incoming_from, 5);
        lemma_rest(l0);
    }
    let f0 = e.insert(v(y.q + 0), e[y.k.minus_one]);
    assert(semantics::phis_assigned(insts, 1, BlockId(FAILURE), e) == f0);
    semantics::lemma_assigned_by_prefix(insts, 1, insts.len() as int, BlockId(FAILURE), e);
}

proof fn enter_copies_from_cache_store_done<D, M>(
    g: FuncView,
    m: Meaning<D, M>,
    y: Layout,
    e: Map<ValueId, D>,
)
    requires
        is_helper(g, m, y),
    ensures
        semantics::phis_assigned(
            at(g, COPIES as int),
            at(g, COPIES as int).len() as int,
            BlockId(CACHE_STORE_DONE),
            e,
        ) == e.insert(v(y.q + 6), e[v(y.n + 1)]).insert(v(y.q + 7), e[y.k.one]),
{
    reveal(shape::stands);
    let insts = at(g, COPIES as int);
    assert(insts == seq![
        defines(
            y.q + 6,
            emit::phi(
                seq![(BlockId(CACHE_STORE_DONE), v(y.n + 1)), (BlockId(COPIES_BODY), v(y.q + 9))],
            ),
        ),
        defines(
            y.q + 7,
            emit::phi(
                seq![(BlockId(CACHE_STORE_DONE), y.k.one), (BlockId(COPIES_BODY), v(y.q + 10))],
            ),
        ),
        defines(y.q + 8, emit::comparison(CompareOp::Le, v(y.q + 6), v(y.n + 0))),
    ]);
    assert(semantics::phis_assigned(insts, 0, BlockId(CACHE_STORE_DONE), e) == e);
    let l0 = seq![(BlockId(CACHE_STORE_DONE), v(y.n + 1)), (BlockId(COPIES_BODY), v(y.q + 9))];
    assert(util::incoming_from(l0, BlockId(CACHE_STORE_DONE)) == Some(v(y.n + 1))) by {
        reveal_with_fuel(util::incoming_from, 5);
        lemma_rest(l0);
    }
    let f0 = e.insert(v(y.q + 6), e[v(y.n + 1)]);
    assert(semantics::phis_assigned(insts, 1, BlockId(CACHE_STORE_DONE), e) == f0);
    let l1 = seq![(BlockId(CACHE_STORE_DONE), y.k.one), (BlockId(COPIES_BODY), v(y.q + 10))];
    assert(util::incoming_from(l1, BlockId(CACHE_STORE_DONE)) == Some(y.k.one)) by {
        reveal_with_fuel(util::incoming_from, 5);
        lemma_rest(l1);
    }
    let f1 = f0.insert(v(y.q + 7), e[y.k.one]);
    assert(semantics::phis_assigned(insts, 2, BlockId(CACHE_STORE_DONE), e) == f1);
    semantics::lemma_assigned_by_prefix(insts, 2, insts.len() as int, BlockId(CACHE_STORE_DONE), e);
}

proof fn enter_copies_from_copies_body<D, M>(
    g: FuncView,
    m: Meaning<D, M>,
    y: Layout,
    e: Map<ValueId, D>,
)
    requires
        is_helper(g, m, y),
    ensures
        semantics::phis_assigned(
            at(g, COPIES as int),
            at(g, COPIES as int).len() as int,
            BlockId(COPIES_BODY),
            e,
        ) == e.insert(v(y.q + 6), e[v(y.q + 9)]).insert(v(y.q + 7), e[v(y.q + 10)]),
{
    reveal(shape::stands);
    let insts = at(g, COPIES as int);
    assert(insts == seq![
        defines(
            y.q + 6,
            emit::phi(
                seq![(BlockId(CACHE_STORE_DONE), v(y.n + 1)), (BlockId(COPIES_BODY), v(y.q + 9))],
            ),
        ),
        defines(
            y.q + 7,
            emit::phi(
                seq![(BlockId(CACHE_STORE_DONE), y.k.one), (BlockId(COPIES_BODY), v(y.q + 10))],
            ),
        ),
        defines(y.q + 8, emit::comparison(CompareOp::Le, v(y.q + 6), v(y.n + 0))),
    ]);
    assert(semantics::phis_assigned(insts, 0, BlockId(COPIES_BODY), e) == e);
    let l0 = seq![(BlockId(CACHE_STORE_DONE), v(y.n + 1)), (BlockId(COPIES_BODY), v(y.q + 9))];
    assert(util::incoming_from(l0, BlockId(COPIES_BODY)) == Some(v(y.q + 9))) by {
        reveal_with_fuel(util::incoming_from, 5);
        lemma_rest(l0);
    }
    let f0 = e.insert(v(y.q + 6), e[v(y.q + 9)]);
    assert(semantics::phis_assigned(insts, 1, BlockId(COPIES_BODY), e) == f0);
    let l1 = seq![(BlockId(CACHE_STORE_DONE), y.k.one), (BlockId(COPIES_BODY), v(y.q + 10))];
    assert(util::incoming_from(l1, BlockId(COPIES_BODY)) == Some(v(y.q + 10))) by {
        reveal_with_fuel(util::incoming_from, 5);
        lemma_rest(l1);
    }
    let f1 = f0.insert(v(y.q + 7), e[v(y.q + 10)]);
    assert(semantics::phis_assigned(insts, 2, BlockId(COPIES_BODY), e) == f1);
    semantics::lemma_assigned_by_prefix(insts, 2, insts.len() as int, BlockId(COPIES_BODY), e);
}

proof fn enter_value_done_from_failed_value<D, M>(
    g: FuncView,
    m: Meaning<D, M>,
    y: Layout,
    e: Map<ValueId, D>,
)
    requires
        is_helper(g, m, y),
    ensures
        semantics::phis_assigned(
            at(g, VALUE_DONE as int),
            at(g, VALUE_DONE as int).len() as int,
            BlockId(FAILED_VALUE),
            e,
        ) == e.insert(v(y.q + 12), e[y.k.failure_value]).insert(v(y.q + 13), e[y.k.zero]),
{
    reveal(shape::stands);
    let insts = at(g, VALUE_DONE as int);
    assert(insts == seq![
        defines(
            y.q + 12,
            emit::phi(
                seq![
                    (BlockId(FAILED_VALUE), y.k.failure_value),
                    (BlockId(SUCCESSFUL_VALUE), v(y.q + 0)),
                ],
            ),
        ),
        defines(
            y.q + 13,
            emit::phi(
                seq![(BlockId(FAILED_VALUE), y.k.zero), (BlockId(SUCCESSFUL_VALUE), y.k.one)],
            ),
        ),
        defines(y.q + 14, emit::comparison(CompareOp::Le, v(y.q + 12), y.k.safe_base)),
    ]);
    assert(semantics::phis_assigned(insts, 0, BlockId(FAILED_VALUE), e) == e);
    let l0 = seq![
        (BlockId(FAILED_VALUE), y.k.failure_value),
        (BlockId(SUCCESSFUL_VALUE), v(y.q + 0)),
    ];
    assert(util::incoming_from(l0, BlockId(FAILED_VALUE)) == Some(y.k.failure_value)) by {
        reveal_with_fuel(util::incoming_from, 5);
        lemma_rest(l0);
    }
    let f0 = e.insert(v(y.q + 12), e[y.k.failure_value]);
    assert(semantics::phis_assigned(insts, 1, BlockId(FAILED_VALUE), e) == f0);
    let l1 = seq![(BlockId(FAILED_VALUE), y.k.zero), (BlockId(SUCCESSFUL_VALUE), y.k.one)];
    assert(util::incoming_from(l1, BlockId(FAILED_VALUE)) == Some(y.k.zero)) by {
        reveal_with_fuel(util::incoming_from, 5);
        lemma_rest(l1);
    }
    let f1 = f0.insert(v(y.q + 13), e[y.k.zero]);
    assert(semantics::phis_assigned(insts, 2, BlockId(FAILED_VALUE), e) == f1);
    semantics::lemma_assigned_by_prefix(insts, 2, insts.len() as int, BlockId(FAILED_VALUE), e);
}

proof fn enter_value_done_from_successful_value<D, M>(
    g: FuncView,
    m: Meaning<D, M>,
    y: Layout,
    e: Map<ValueId, D>,
)
    requires
        is_helper(g, m, y),
    ensures
        semantics::phis_assigned(
            at(g, VALUE_DONE as int),
            at(g, VALUE_DONE as int).len() as int,
            BlockId(SUCCESSFUL_VALUE),
            e,
        ) == e.insert(v(y.q + 12), e[v(y.q + 0)]).insert(v(y.q + 13), e[y.k.one]),
{
    reveal(shape::stands);
    let insts = at(g, VALUE_DONE as int);
    assert(insts == seq![
        defines(
            y.q + 12,
            emit::phi(
                seq![
                    (BlockId(FAILED_VALUE), y.k.failure_value),
                    (BlockId(SUCCESSFUL_VALUE), v(y.q + 0)),
                ],
            ),
        ),
        defines(
            y.q + 13,
            emit::phi(
                seq![(BlockId(FAILED_VALUE), y.k.zero), (BlockId(SUCCESSFUL_VALUE), y.k.one)],
            ),
        ),
        defines(y.q + 14, emit::comparison(CompareOp::Le, v(y.q + 12), y.k.safe_base)),
    ]);
    assert(semantics::phis_assigned(insts, 0, BlockId(SUCCESSFUL_VALUE), e) == e);
    let l0 = seq![
        (BlockId(FAILED_VALUE), y.k.failure_value),
        (BlockId(SUCCESSFUL_VALUE), v(y.q + 0)),
    ];
    assert(util::incoming_from(l0, BlockId(SUCCESSFUL_VALUE)) == Some(v(y.q + 0))) by {
        reveal_with_fuel(util::incoming_from, 5);
        lemma_rest(l0);
    }
    let f0 = e.insert(v(y.q + 12), e[v(y.q + 0)]);
    assert(semantics::phis_assigned(insts, 1, BlockId(SUCCESSFUL_VALUE), e) == f0);
    let l1 = seq![(BlockId(FAILED_VALUE), y.k.zero), (BlockId(SUCCESSFUL_VALUE), y.k.one)];
    assert(util::incoming_from(l1, BlockId(SUCCESSFUL_VALUE)) == Some(y.k.one)) by {
        reveal_with_fuel(util::incoming_from, 5);
        lemma_rest(l1);
    }
    let f1 = f0.insert(v(y.q + 13), e[y.k.one]);
    assert(semantics::phis_assigned(insts, 2, BlockId(SUCCESSFUL_VALUE), e) == f1);
    semantics::lemma_assigned_by_prefix(insts, 2, insts.len() as int, BlockId(SUCCESSFUL_VALUE), e);
}

proof fn enter_add_loop_from_value_done<D, M>(
    g: FuncView,
    m: Meaning<D, M>,
    y: Layout,
    e: Map<ValueId, D>,
)
    requires
        is_helper(g, m, y),
    ensures
        semantics::phis_assigned(
            at(g, ADD_LOOP as int),
            at(g, ADD_LOOP as int).len() as int,
            BlockId(VALUE_DONE),
            e,
        ) == e.insert(v(y.q + 23), e[y.k.zero]).insert(v(y.q + 24), e[v(y.n + 2)]),
{
    reveal(shape::stands);
    let insts = at(g, ADD_LOOP as int);
    assert(insts == seq![
        defines(
            y.q + 23,
            emit::phi(seq![(BlockId(VALUE_DONE), y.k.zero), (BlockId(ADD_BODY), v(y.q + 30))]),
        ),
        defines(
            y.q + 24,
            emit::phi(seq![(BlockId(VALUE_DONE), v(y.n + 2)), (BlockId(ADD_BODY), v(y.q + 29))]),
        ),
        defines(y.q + 25, emit::comparison(CompareOp::Lt, v(y.q + 23), v(y.q + 7))),
    ]);
    assert(semantics::phis_assigned(insts, 0, BlockId(VALUE_DONE), e) == e);
    let l0 = seq![(BlockId(VALUE_DONE), y.k.zero), (BlockId(ADD_BODY), v(y.q + 30))];
    assert(util::incoming_from(l0, BlockId(VALUE_DONE)) == Some(y.k.zero)) by {
        reveal_with_fuel(util::incoming_from, 5);
        lemma_rest(l0);
    }
    let f0 = e.insert(v(y.q + 23), e[y.k.zero]);
    assert(semantics::phis_assigned(insts, 1, BlockId(VALUE_DONE), e) == f0);
    let l1 = seq![(BlockId(VALUE_DONE), v(y.n + 2)), (BlockId(ADD_BODY), v(y.q + 29))];
    assert(util::incoming_from(l1, BlockId(VALUE_DONE)) == Some(v(y.n + 2))) by {
        reveal_with_fuel(util::incoming_from, 5);
        lemma_rest(l1);
    }
    let f1 = f0.insert(v(y.q + 24), e[v(y.n + 2)]);
    assert(semantics::phis_assigned(insts, 2, BlockId(VALUE_DONE), e) == f1);
    semantics::lemma_assigned_by_prefix(insts, 2, insts.len() as int, BlockId(VALUE_DONE), e);
}

proof fn enter_add_loop_from_add_body<D, M>(
    g: FuncView,
    m: Meaning<D, M>,
    y: Layout,
    e: Map<ValueId, D>,
)
    requires
        is_helper(g, m, y),
    ensures
        semantics::phis_assigned(
            at(g, ADD_LOOP as int),
            at(g, ADD_LOOP as int).len() as int,
            BlockId(ADD_BODY),
            e,
        ) == e.insert(v(y.q + 23), e[v(y.q + 30)]).insert(v(y.q + 24), e[v(y.q + 29)]),
{
    reveal(shape::stands);
    let insts = at(g, ADD_LOOP as int);
    assert(insts == seq![
        defines(
            y.q + 23,
            emit::phi(seq![(BlockId(VALUE_DONE), y.k.zero), (BlockId(ADD_BODY), v(y.q + 30))]),
        ),
        defines(
            y.q + 24,
            emit::phi(seq![(BlockId(VALUE_DONE), v(y.n + 2)), (BlockId(ADD_BODY), v(y.q + 29))]),
        ),
        defines(y.q + 25, emit::comparison(CompareOp::Lt, v(y.q + 23), v(y.q + 7))),
    ]);
    assert(semantics::phis_assigned(insts, 0, BlockId(ADD_BODY), e) == e);
    let l0 = seq![(BlockId(VALUE_DONE), y.k.zero), (BlockId(ADD_BODY), v(y.q + 30))];
    assert(util::incoming_from(l0, BlockId(ADD_BODY)) == Some(v(y.q + 30))) by {
        reveal_with_fuel(util::incoming_from, 5);
        lemma_rest(l0);
    }
    let f0 = e.insert(v(y.q + 23), e[v(y.q + 30)]);
    assert(semantics::phis_assigned(insts, 1, BlockId(ADD_BODY), e) == f0);
    let l1 = seq![(BlockId(VALUE_DONE), v(y.n + 2)), (BlockId(ADD_BODY), v(y.q + 29))];
    assert(util::incoming_from(l1, BlockId(ADD_BODY)) == Some(v(y.q + 29))) by {
        reveal_with_fuel(util::incoming_from, 5);
        lemma_rest(l1);
    }
    let f1 = f0.insert(v(y.q + 24), e[v(y.q + 29)]);
    assert(semantics::phis_assigned(insts, 2, BlockId(ADD_BODY), e) == f1);
    semantics::lemma_assigned_by_prefix(insts, 2, insts.len() as int, BlockId(ADD_BODY), e);
}

proof fn enter_outer_latch_from_aggregate<D, M>(
    g: FuncView,
    m: Meaning<D, M>,
    y: Layout,
    e: Map<ValueId, D>,
)
    requires
        is_helper(g, m, y),
    ensures
        semantics::phis_assigned(
            at(g, OUTER_LATCH as int),
            at(g, OUTER_LATCH as int).len() as int,
            BlockId(AGGREGATE),
            e,
        ) == e.insert(v(y.q + 31), e[v(y.q + 22)]),
{
    reveal(shape::stands);
    let insts = at(g, OUTER_LATCH as int);
    assert(insts == seq![
        defines(
            y.q + 31,
            emit::phi(seq![(BlockId(AGGREGATE), v(y.q + 22)), (BlockId(ADD_LOOP), v(y.q + 24))]),
        ),
        defines(y.q + 32, emit::binary(BinaryOp::Iadd, v(y.n + 1), y.k.two)),
    ]);
    assert(semantics::phis_assigned(insts, 0, BlockId(AGGREGATE), e) == e);
    let l0 = seq![(BlockId(AGGREGATE), v(y.q + 22)), (BlockId(ADD_LOOP), v(y.q + 24))];
    assert(util::incoming_from(l0, BlockId(AGGREGATE)) == Some(v(y.q + 22))) by {
        reveal_with_fuel(util::incoming_from, 5);
        lemma_rest(l0);
    }
    let f0 = e.insert(v(y.q + 31), e[v(y.q + 22)]);
    assert(semantics::phis_assigned(insts, 1, BlockId(AGGREGATE), e) == f0);
    semantics::lemma_assigned_by_prefix(insts, 1, insts.len() as int, BlockId(AGGREGATE), e);
}

proof fn enter_outer_latch_from_add_loop<D, M>(
    g: FuncView,
    m: Meaning<D, M>,
    y: Layout,
    e: Map<ValueId, D>,
)
    requires
        is_helper(g, m, y),
    ensures
        semantics::phis_assigned(
            at(g, OUTER_LATCH as int),
            at(g, OUTER_LATCH as int).len() as int,
            BlockId(ADD_LOOP),
            e,
        ) == e.insert(v(y.q + 31), e[v(y.q + 24)]),
{
    reveal(shape::stands);
    let insts = at(g, OUTER_LATCH as int);
    assert(insts == seq![
        defines(
            y.q + 31,
            emit::phi(seq![(BlockId(AGGREGATE), v(y.q + 22)), (BlockId(ADD_LOOP), v(y.q + 24))]),
        ),
        defines(y.q + 32, emit::binary(BinaryOp::Iadd, v(y.n + 1), y.k.two)),
    ]);
    assert(semantics::phis_assigned(insts, 0, BlockId(ADD_LOOP), e) == e);
    let l0 = seq![(BlockId(AGGREGATE), v(y.q + 22)), (BlockId(ADD_LOOP), v(y.q + 24))];
    assert(util::incoming_from(l0, BlockId(ADD_LOOP)) == Some(v(y.q + 24))) by {
        reveal_with_fuel(util::incoming_from, 5);
        lemma_rest(l0);
    }
    let f0 = e.insert(v(y.q + 31), e[v(y.q + 24)]);
    assert(semantics::phis_assigned(insts, 1, BlockId(ADD_LOOP), e) == f0);
    semantics::lemma_assigned_by_prefix(insts, 1, insts.len() as int, BlockId(ADD_LOOP), e);
}

proof fn lemma_rest(l: Seq<(BlockId, ValueId)>)
    ensures
        forall|i: int|
            0 <= i < l.len() - 1 ==> #[trigger] l.drop_first()[i] == l[i + 1],
        forall|i: int|
            0 <= i < l.len() - 2 ==> #[trigger] l.drop_first().drop_first()[i] == l[i + 2],
        forall|i: int|
            0 <= i < l.len() - 3 ==> #[trigger] l.drop_first().drop_first().drop_first()[i] == l[i
                + 3],
{
}

} // verus!
