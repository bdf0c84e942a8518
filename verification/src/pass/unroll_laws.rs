//! Unrolling a loop keeps what a function computes.
use vstd::prelude::*;

use crate::cfg;
use crate::edit;
use crate::emit;
use crate::ir::{
    BinaryOp, BlockId, CompareOp, Const, FuncView, InstView, KindView, Terminator, Type, ValueId,
    ValueKindView,
};
use crate::loops;
use crate::loops::LoopView;
use crate::names;
use crate::pass::idiom_laws;
use crate::pass::memset_laws::{end_ignores, lemma_count, lemma_operand_exists, lemma_result};
use crate::pass::odd_chain_group::run_laws::is_arithmetic;
use crate::pass::range_integer::laws::of_compare;
use crate::pass::reduction_jam::shape;
use crate::pass::simple_loop_unroll;
use crate::pass::simple_loop_unroll::{Candidate, Header};
use crate::pass::simplify_cfg::meaning_laws;
use crate::pass::simplify_cfg::meaning_laws::constants_kept;
use crate::pass::simplify_cfg::select_laws::entered_once;
use crate::pass::simplify_cfg::threading_laws;
use crate::pass::simplify_cfg::threading_laws::fits;
use crate::pass::wrapper_laws;
use crate::patterns;
use crate::query;
use crate::semantics;
use crate::semantics::{alike, Meaning, State};
use crate::ssa;
use crate::ssa::one;
use crate::util;
use crate::verify;

verus! {

// ---------------------------------------------------------------------------
// Copies of instructions
// ---------------------------------------------------------------------------

/// The copies of the first `n` instructions, whose results are numbered from
/// `first` on; what stands for what; and the next number.
pub open spec fn copies(
    insts: Seq<InstView>,
    first: int,
    start: Map<ValueId, ValueId>,
    n: int,
) -> (Seq<InstView>, Map<ValueId, ValueId>, int)
    decreases n,
{
    if n <= 0 {
        (Seq::empty(), start, first)
    } else {
        let (list, map, id) = copies(insts, first, start, n - 1);
        let inst = insts[n - 1];
        let kind = util::map_kind(inst.kind, util::resolver(map, 1));
        if inst.kind is Nop {
            (list, map, id)
        } else {
            match inst.result {
                Some(r) => (
                    list.push(InstView { result: Some(ValueId(id as usize)), kind }),
                    map.insert(r, ValueId(id as usize)),
                    id + 1,
                ),
                None => (list.push(InstView { result: None, kind }), map, id),
            }
        }
    }
}

/// The second function is the first one with a list at the end of a block.
pub open spec fn is_appended(f: FuncView, g: FuncView, target: usize, list: Seq<InstView>) -> bool {
    let b = BlockId(target);
    &&& g.entry == f.entry
    &&& g.params == f.params
    &&& g.blocks.len() == f.blocks.len()
    &&& g.values.len() >= f.values.len()
    &&& g.block(b).insts == f.block(b).insts + list
    &&& g.terminator(b) == f.terminator(b)
    &&& forall|c: int|
        0 <= c < f.blocks.len() && c != target ==> #[trigger] g.blocks[c] == f.blocks[c]
    &&& forall|i: int| 0 <= i < f.values.len() ==> #[trigger] g.values[i] == f.values[i]
}

proof fn lemma_copied(
    g: FuncView,
    b: BlockId,
    f: FuncView,
    map: Map<ValueId, ValueId>,
    target: usize,
    n: int,
)
    requires
        target < f.blocks.len(),
        0 <= n <= g.block(b).insts.len(),
        f.values.len() + n <= usize::MAX,
    ensures
        ({
            let (f1, map1) = simple_loop_unroll::insts_copied(g, b, f, map, target, n);
            let (list, map2, id) = copies(g.block(b).insts, f.values.len() as int, map, n);
            &&& map1 == map2
            &&& f1.values.len() == id
            &&& id <= f.values.len() + n
            &&& is_appended(f, f1, target, list)
        }),
    decreases n,
{
    if n > 0 {
        lemma_copied(g, b, f, map, target, n - 1);
        reveal(emit::emitted);
        reveal(emit::effected);
        let (f1, map1) = simple_loop_unroll::insts_copied(g, b, f, map, target, n - 1);
        let (list, map2, id) = copies(g.block(b).insts, f.values.len() as int, map, n - 1);
        let (f2, _) = simple_loop_unroll::insts_copied(g, b, f, map, target, n);
        let (more, _, _) = copies(g.block(b).insts, f.values.len() as int, map, n);
        assert(g.inst(b, n - 1) == g.block(b).insts[n - 1]);
        assert(f2.block(BlockId(target)).insts =~= f.block(BlockId(target)).insts + more);
        assert forall|c: int|
            0 <= c < f.blocks.len() && c != target implies #[trigger] f2.blocks[c] == f.blocks[c] by {
            assert(f1.blocks[c] == f.blocks[c]);
        }
        assert forall|i: int| 0 <= i < f.values.len() implies #[trigger] f2.values[i]
            == f.values[i] by {
            assert(f1.values[i] == f.values[i]);
        }
    } else {
        assert(f.block(BlockId(target)).insts =~= f.block(BlockId(target)).insts + Seq::<
            InstView,
        >::empty());
    }
}

/// Renaming operands renames what is read, and nothing else.
pub proof fn lemma_renamed(kind: KindView, g: spec_fn(ValueId) -> ValueId)
    requires
        !(kind is Phi),
    ensures
        edit::operands(util::map_kind(kind, g)) == edit::operands(kind).map_values(g),
        semantics::shape(util::map_kind(kind, g)) == semantics::shape(kind),
        util::map_kind(kind, g) is Phi <==> kind is Phi,
        util::map_kind(kind, g) is Nop <==> kind is Nop,
{
    let z = |v: ValueId| ValueId(0);
    assert(edit::operands(util::map_kind(kind, g)) =~= edit::operands(kind).map_values(g));
    match kind {
        KindView::Gep { base, indices } => {
            assert(indices.map_values(g).map_values(z) =~= indices.map_values(z));
        },
        KindView::Call { name, args } => {
            assert(args.map_values(g).map_values(z) =~= args.map_values(z));
        },
        _ => {},
    }
}

/// The instruction reads only what is mapped or comes from outside.
pub open spec fn reads_known(
    inst: InstView,
    known: spec_fn(ValueId) -> bool,
    nv: nat,
) -> bool {
    &&& !(inst.kind is Phi)
    &&& forall|k: int|
        0 <= k < edit::operands(inst.kind).len() ==> known(
            #[trigger] edit::operands(inst.kind)[k],
        ) && edit::operands(inst.kind)[k].0 < nv
}

/// An instruction before place `i` defines the value.
pub open spec fn is_defined_before(insts: Seq<InstView>, i: int, v: ValueId) -> bool {
    exists|j: int| 0 <= j < i && (#[trigger] insts[j]).result == Some(v)
}

/// Every instruction reads only the counter, results of earlier ones, and what
/// none of them defines, but not the value `skip`.
pub open spec fn is_orderly(
    insts: Seq<InstView>,
    counter: ValueId,
    skip: ValueId,
    nv: nat,
) -> bool {
    &&& forall|i: int|
        0 <= i < insts.len() ==> reads_known(
            #[trigger] insts[i],
            |v: ValueId|
                v != skip && (v == counter || is_defined_before(insts, i, v) || !is_defined_before(
                    insts,
                    insts.len() as int,
                    v,
                )),
            nv,
        )
    &&& forall|i: int|
        0 <= i < insts.len() && (#[trigger] insts[i]).kind is Nop ==> insts[i].result is None
    &&& forall|i: int|
        0 <= i < insts.len() ==> ((#[trigger] insts[i]).result matches Some(v) ==> v.0 < nv && v
            != counter)
    &&& forall|i: int, j: int|
        0 <= i < j < insts.len() && (#[trigger] insts[i]).result is Some ==> insts[i].result != (
        #[trigger] insts[j]).result
}

/// The value is neither the counter, nor `skip`, nor one that the instructions
/// define.
pub open spec fn is_outer(
    insts: Seq<InstView>,
    counter: ValueId,
    skip: ValueId,
    nv: nat,
    v: ValueId,
) -> bool {
    v.0 < nv && v != counter && v != skip && !is_defined_before(insts, insts.len() as int, v)
}

/// What copies compute: memory as by the instructions, and data under other
/// names.
pub open spec fn copies_agree<D>(
    insts: Seq<InstView>,
    counter: ValueId,
    skip: ValueId,
    nv: nat,
    map: Map<ValueId, ValueId>,
    n: int,
    id: int,
    a: Map<ValueId, D>,
    b: Map<ValueId, D>,
) -> bool {
    &&& map.contains_key(counter)
    &&& forall|v: ValueId| #[trigger]
        map.contains_key(v) ==> b[map[v]] == a[v] && nv <= map[v].0 < id && (v == counter
            || is_defined_before(insts, n, v))
    &&& forall|j: int|
        0 <= j < n ==> ((#[trigger] insts[j]).result matches Some(v) ==> map.contains_key(v))
    &&& forall|v: ValueId| #[trigger] is_outer(insts, counter, skip, nv, v) ==> a[v] == b[v]
}

#[verifier::rlimit(40)]
proof fn lemma_copies_run<D, M>(
    m: Meaning<D, M>,
    insts: Seq<InstView>,
    counter: ValueId,
    skip: ValueId,
    nv: nat,
    first: int,
    start: Map<ValueId, ValueId>,
    n: int,
    ef: Map<ValueId, D>,
    eh: Map<ValueId, D>,
    x: M,
)
    requires
        is_orderly(insts, counter, skip, nv),
        0 <= n <= insts.len(),
        nv <= first,
        first + insts.len() <= usize::MAX,
        copies_agree(insts, counter, skip, nv, start, 0, first, ef, eh),
    ensures
        ({
            let (list, map, id) = copies(insts, first, start, n);
            let (a, x1) = semantics::executed(m, insts, n, ef, x);
            let (b, x2) = semantics::executed(m, list, list.len() as int, eh, x);
            &&& first <= id <= first + n
            &&& x1 == x2
            &&& copies_agree(insts, counter, skip, nv, map, n, id, a, b)
            &&& forall|w: ValueId| w.0 < first ==> #[trigger] b[w] == eh[w]
            &&& forall|i: int|
                0 <= i < list.len() ==> !((#[trigger] list[i]).kind is Phi)
        }),
    decreases n,
{
    if n > 0 {
        lemma_copies_run(m, insts, counter, skip, nv, first, start, n - 1, ef, eh, x);
        let (list, map, id) = copies(insts, first, start, n - 1);
        let (a, x1) = semantics::executed(m, insts, n - 1, ef, x);
        let (b, x2) = semantics::executed(m, list, list.len() as int, eh, x);
        let inst = insts[n - 1];
        let known = |v: ValueId|
            v != skip && (v == counter || is_defined_before(insts, n - 1, v)
                || !is_defined_before(insts, insts.len() as int, v));
        assert(reads_known(inst, known, nv));
        if !(inst.kind is Nop) {
            let g = util::resolver(map, 1);
            lemma_renamed(inst.kind, g);
            let kind = util::map_kind(inst.kind, g);
            let ops = edit::operands(inst.kind);
            assert(ssa::data_of(kind, b) =~= ssa::data_of(inst.kind, a)) by {
                assert forall|k: int| 0 <= k < ops.len() implies b[g(#[trigger] ops[k])]
                    == a[ops[k]] by {
                    let v = ops[k];
                    assert(known(v));
                    reveal_with_fuel(util::resolve, 2);
                    if v == counter {
                        assert(map.contains_key(v));
                    } else if is_defined_before(insts, n - 1, v) {
                        let j = choose|j: int| 0 <= j < n - 1 && (#[trigger] insts[j]).result
                            == Some(v);
                        assert(map.contains_key(v));
                    } else {
                        assert(is_outer(insts, counter, skip, nv, v));
                        if map.contains_key(v) {
                            let j = choose|j: int|
                                0 <= j < n - 1 && (#[trigger] insts[j]).result == Some(v);
                            assert(is_defined_before(insts, insts.len() as int, v));
                        }
                    }
                }
            }
            let (list2, map2, id2) = copies(insts, first, start, n);
            assert(list2.take(list.len() as int) =~= list);
            semantics::lemma_executed_prefix(m, list2, list, list.len() as int, eh, x);
            let (d, y) = (m.apply)(semantics::shape(inst.kind), ssa::data_of(inst.kind, a), x1);
            assert forall|j: int| 0 <= j < n implies ((#[trigger] insts[j]).result matches Some(v)
                ==> map2.contains_key(v)) by {
            }
            let a2 = semantics::executed(m, insts, n, ef, x).0;
            let b2 = semantics::executed(m, list2, list2.len() as int, eh, x).0;
            assert forall|v: ValueId| #[trigger] map2.contains_key(v) implies b2[map2[v]] == a2[v]
                && nv <= map2[v].0 < id2 && (v == counter || is_defined_before(insts, n, v)) by {
                if inst.result == Some(v) {
                    assert(insts[n - 1].result == Some(v));
                } else {
                    assert(map.contains_key(v));
                    if v != counter {
                        let j = choose|j: int| 0 <= j < n - 1 && (#[trigger] insts[j]).result
                            == Some(v);
                        assert(insts[j].result == Some(v));
                    }
                }
            }
            assert forall|v: ValueId| #[trigger] is_outer(insts, counter, skip, nv, v) implies a2[v]
                == b2[v] by {
                if inst.result == Some(v) {
                    assert(insts[n - 1].result == Some(v));
                }
            }
        } else {
            assert forall|v: ValueId| #[trigger] map.contains_key(v) implies (v == counter
                || is_defined_before(insts, n, v)) by {
                if v != counter {
                    let j = choose|j: int| 0 <= j < n - 1 && (#[trigger] insts[j]).result == Some(
                        v,
                    );
                    assert(insts[j].result == Some(v));
                }
            }
        }
    }
}

/// What the instructions do not define stays.
pub proof fn lemma_untouched<D, M>(
    m: Meaning<D, M>,
    insts: Seq<InstView>,
    n: int,
    e: Map<ValueId, D>,
    x: M,
    v: ValueId,
)
    requires
        0 <= n <= insts.len(),
        !is_defined_before(insts, n, v),
    ensures
        semantics::executed(m, insts, n, e, x).0[v] == e[v],
    decreases n,
{
    if n > 0 {
        assert(!is_defined_before(insts, n - 1, v)) by {
            if is_defined_before(insts, n - 1, v) {
                let j = choose|j: int| 0 <= j < n - 1 && (#[trigger] insts[j]).result == Some(v);
                assert(insts[j].result == Some(v));
            }
        }
        lemma_untouched(m, insts, n - 1, e, x, v);
        assert(insts[n - 1].result != Some(v));
    }
}

/// What an instruction has computed stays.
pub proof fn lemma_stays<D, M>(
    m: Meaning<D, M>,
    insts: Seq<InstView>,
    j: int,
    n: int,
    e: Map<ValueId, D>,
    x: M,
    v: ValueId,
)
    requires
        0 <= j < n <= insts.len(),
        forall|k: int| j < k < insts.len() ==> (#[trigger] insts[k]).result != Some(v),
    ensures
        semantics::executed(m, insts, n, e, x).0[v] == semantics::executed(
            m,
            insts,
            j + 1,
            e,
            x,
        ).0[v],
    decreases n,
{
    if n > j + 1 {
        lemma_stays(m, insts, j, n - 1, e, x, v);
        assert(insts[n - 1].result != Some(v));
    }
}

/// What the instructions have left in their results before does not matter.
#[verifier::rlimit(40)]
proof fn lemma_fresh<D, M>(
    m: Meaning<D, M>,
    insts: Seq<InstView>,
    counter: ValueId,
    skip: ValueId,
    nv: nat,
    n: int,
    a: Map<ValueId, D>,
    b: Map<ValueId, D>,
    x: M,
)
    requires
        is_orderly(insts, counter, skip, nv),
        0 <= n <= insts.len(),
        a[counter] == b[counter],
        forall|v: ValueId| #[trigger] is_outer(insts, counter, skip, nv, v) ==> a[v] == b[v],
    ensures
        ({
            let (a1, x1) = semantics::executed(m, insts, n, a, x);
            let (b1, x2) = semantics::executed(m, insts, n, b, x);
            &&& x1 == x2
            &&& a1[counter] == b1[counter]
            &&& forall|v: ValueId| #[trigger] is_outer(insts, counter, skip, nv, v) ==> a1[v] == b1[v]
            &&& forall|j: int|
                0 <= j < n ==> ((#[trigger] insts[j]).result matches Some(v) ==> a1[v] == b1[v])
        }),
    decreases n,
{
    if n > 0 {
        lemma_fresh(m, insts, counter, skip, nv, n - 1, a, b, x);
        let (a1, x1) = semantics::executed(m, insts, n - 1, a, x);
        let (b1, x2) = semantics::executed(m, insts, n - 1, b, x);
        let inst = insts[n - 1];
        let known = |v: ValueId|
            v != skip && (v == counter || is_defined_before(insts, n - 1, v)
                || !is_defined_before(insts, insts.len() as int, v));
        assert(reads_known(inst, known, nv));
        let ops = edit::operands(inst.kind);
        assert(ssa::data_of(inst.kind, a1) =~= ssa::data_of(inst.kind, b1)) by {
            assert forall|k: int| 0 <= k < ops.len() implies a1[#[trigger] ops[k]]
                == b1[ops[k]] by {
                let v = ops[k];
                assert(known(v));
                if v == counter {
                } else if is_defined_before(insts, n - 1, v) {
                    let j = choose|j: int| 0 <= j < n - 1 && (#[trigger] insts[j]).result == Some(
                        v,
                    );
                    assert(insts[j].result == Some(v));
                } else {
                    assert(is_outer(insts, counter, skip, nv, v));
                }
            }
        }
    }
}

// ---------------------------------------------------------------------------
// The loop
// ---------------------------------------------------------------------------

/// What is found of the loop besides the candidate.
pub struct Details {
    pub exit: BlockId,
    pub condition: ValueId,
    /// The places of the phi and of the comparison in the header, and of the next
    /// counter in the body.
    pub phi: int,
    pub compare: int,
    pub next: int,
}

pub open spec fn body_of(f: FuncView, c: Candidate) -> Seq<InstView> {
    f.block(c.body).insts
}

/// How control passes through the loop, and what stands in it.
pub open spec fn is_counted_loop(f: FuncView, c: Candidate, t: Details) -> bool {
    let head = f.block(c.header).insts;
    let body = body_of(f, c);
    &&& f.has_block(c.preheader)
    &&& f.has_block(c.header)
    &&& f.has_block(c.body)
    &&& f.has_block(t.exit)
    &&& c.header != c.body
    &&& c.preheader != c.header
    &&& c.preheader != c.body
    &&& t.exit != c.header
    &&& t.exit != c.body
    &&& f.entry != c.header
    &&& f.entry != c.body
    &&& f.terminator(c.preheader) == Some(Terminator::Jump(c.header))
    &&& f.terminator(c.header) == Some(
        Terminator::Branch { cond: t.condition, then_target: c.body, else_target: t.exit },
    )
    &&& f.terminator(c.body) == Some(Terminator::Jump(c.header))
    &&& forall|q: BlockId|
        f.has_block(q) && #[trigger] cfg::edge(f, q, c.header) ==> q == c.preheader || q == c.body
    &&& forall|q: BlockId| f.has_block(q) && #[trigger] cfg::edge(f, q, c.body) ==> q == c.header
    &&& 0 <= t.phi < head.len()
    &&& 0 <= t.compare < head.len()
    &&& head[t.phi].result == Some(c.counter)
    &&& head[t.phi].kind is Phi
    &&& util::incoming_from(head[t.phi].kind->Phi_incomings, c.preheader) == Some(c.initial)
    &&& util::incoming_from(head[t.phi].kind->Phi_incomings, c.body) == Some(c.next)
    &&& head[t.compare] == (InstView {
        result: Some(t.condition),
        kind: KindView::ICompare { op: CompareOp::Lt, lhs: c.counter, rhs: c.bound },
    })
    &&& forall|i: int|
        0 <= i < head.len() && i != t.phi && i != t.compare ==> (#[trigger] head[i]).kind is Nop
    &&& is_orderly(body, c.counter, t.condition, f.values.len())
    &&& 0 <= t.next < body.len()
    &&& body[t.next].result == Some(c.next)
    &&& loops::step_of(f, body[t.next].kind, c.counter) == Some(1i32)
    &&& util::const_i32_of(f, c.initial) == Some(0i32)
    &&& f.value(c.initial).kind is Const
    &&& f.has_value(c.counter)
    &&& f.has_value(t.condition)
    &&& f.value(t.condition).kind is Inst
    &&& f.value(c.counter).kind is Inst
    &&& t.condition != c.counter
    &&& t.condition != c.bound
    &&& is_outer(body, c.counter, t.condition, f.values.len(), c.bound)
    &&& is_outer(body, c.counter, t.condition, f.values.len(), c.initial)
    &&& !is_defined_before(body, body.len() as int, t.condition)
}

proof fn lemma_header_from(insts: Seq<InstView>, cond: ValueId, h: Header, k: int) -> (r: (
    int,
    int,
))
    requires
        0 <= k <= insts.len(),
    ensures
        simple_loop_unroll::header_from(insts, cond, h, k) matches Some(h1) ==> {
            &&& h.phi is Some ==> h1.phi == h.phi && forall|i: int|
                k <= i < insts.len() ==> !((#[trigger] insts[i]).kind is Phi)
            &&& h.phi is None && h1.phi is Some ==> {
                &&& k <= r.0 < insts.len()
                &&& insts[r.0].kind is Phi
                &&& insts[r.0].result == h1.phi
                &&& forall|i: int|
                    k <= i < insts.len() && i != r.0 ==> !((#[trigger] insts[i]).kind is Phi)
            }
            &&& h.condition is Some ==> h1.condition == h.condition && forall|i: int|
                k <= i < insts.len() ==> !((#[trigger] insts[i]).kind is ICompare)
            &&& h.condition is None && h1.condition is Some ==> {
                &&& k <= r.1 < insts.len()
                &&& insts[r.1] == (InstView {
                    result: Some(cond),
                    kind: KindView::ICompare {
                        op: CompareOp::Lt,
                        lhs: h1.condition->Some_0.0,
                        rhs: h1.condition->Some_0.1,
                    },
                })
                &&& forall|i: int|
                    k <= i < insts.len() && i != r.1 ==> !((#[trigger] insts[i]).kind is ICompare)
            }
            &&& forall|i: int|
                k <= i < insts.len() ==> (#[trigger] insts[i]).kind is Nop || insts[i].kind is Phi
                    || insts[i].kind is ICompare
        },
    decreases insts.len() - k,
{
    if k < insts.len() {
        match insts[k].kind {
            KindView::Nop => lemma_header_from(insts, cond, h, k + 1),
            KindView::Phi { .. } => {
                let r = lemma_header_from(
                    insts,
                    cond,
                    (Header { phi: insts[k].result, ..h }),
                    k + 1,
                );
                (k, r.1)
            },
            KindView::ICompare { op, lhs, rhs } => {
                let r = lemma_header_from(
                    insts,
                    cond,
                    (Header { condition: Some((lhs, rhs)), ..h }),
                    k + 1,
                );
                (r.0, k)
            },
            _ => (0, 0),
        }
    } else {
        (0, 0)
    }
}

/// Empty slots have no results.
pub open spec fn nops_give_nothing(f: FuncView) -> bool {
    forall|b: BlockId, i: int|
        f.has_inst(b, i) && (#[trigger] f.inst(b, i)).kind is Nop ==> f.inst(b, i).result is None
}

proof fn lemma_orderly(f: FuncView, c: Candidate, cond: ValueId)
    requires
        util::def_block(f, cond) == Some(c.header),
        cond != c.counter,
        verify::valid(f),
        fits(f),
        nops_give_nothing(f),
        f.has_block(c.body),
        f.has_block(c.header),
        c.body != c.header,
        util::def_block(f, c.counter) == Some(c.header),
        forall|i: int|
            0 <= i < body_of(f, c).len() ==> #[trigger] simple_loop_unroll::inst_fits(f, c, i),
    ensures
        is_orderly(body_of(f, c), c.counter, cond, f.values.len()),
{
    let insts = body_of(f, c);
    let nv = f.values.len();
    assert(insts.len() <= usize::MAX);
    assert forall|i: int| 0 <= i < insts.len() implies reads_known(
        #[trigger] insts[i],
        |v: ValueId|
            v != cond && (v == c.counter || is_defined_before(insts, i, v) || !is_defined_before(
                insts,
                insts.len() as int,
                v,
            )),
        nv,
    ) by {
        assert(simple_loop_unroll::inst_fits(f, c, i));
        assert(f.has_inst(c.body, i) && f.inst(c.body, i) == insts[i]);
        query::lemma_inst_wf(f, c.body, i);
        let ops = edit::operands(insts[i].kind);
        assert forall|k: int| 0 <= k < ops.len() implies (#[trigger] ops[k]) != cond && (
        ops[k] == c.counter || is_defined_before(insts, i, ops[k]) || !is_defined_before(
            insts,
            insts.len() as int,
            ops[k],
        )) && ops[k].0 < nv by {
            let v = ops[k];
            assert(simple_loop_unroll::operand_fits(f, c, i, v));
            if is_defined_before(insts, insts.len() as int, v) {
                let j = choose|j: int| 0 <= j < insts.len() && (#[trigger] insts[j]).result == Some(
                    v,
                );
                lemma_result(f, c.body, j, v);
                let j2 = choose|j2: int| 0 <= j2 < i && (#[trigger] f.inst(c.body, j2)).result
                    == Some(v);
                assert(insts[j2].result == Some(v));
            }
        }
    }
    assert forall|i: int| 0 <= i < insts.len() implies ((#[trigger] insts[i]).result matches Some(v)
        ==> v.0 < nv && v != c.counter) by {
        if let Some(v) = insts[i].result {
            lemma_result(f, c.body, i, v);
        }
    }
    assert forall|i: int| 0 <= i < insts.len() && (#[trigger] insts[i]).kind is Nop implies insts[i].result
        is None by {
        assert(f.has_inst(c.body, i) && f.inst(c.body, i) == insts[i]);
    }
    assert forall|i: int, j: int|
        0 <= i < j < insts.len() && (#[trigger] insts[i]).result is Some implies insts[i].result
        != (#[trigger] insts[j]).result by {
        if insts[i].result == insts[j].result {
            let v = insts[i].result->Some_0;
            lemma_result(f, c.body, i, v);
            lemma_result(f, c.body, j, v);
        }
    }
}

#[verifier::rlimit(60)]
proof fn lemma_counted_loop(f: FuncView, l: LoopView, c: Candidate) -> (t: Details)
    requires
        verify::valid(f),
        fits(f),
        entered_once(f),
        nops_give_nothing(f),
        f.has_block(l.header),
        l == loops::loop_at(f, l.header),
        simple_loop_unroll::candidate_at(f, l) == Some(c),
    ensures
        is_counted_loop(f, c, t),
{
    let h = l.header;
    let n = f.blocks.len() as int;
    let (cond, _, exit) = patterns::branch_of(f, h)->Some_0;
    let preds = cfg::preds(f, h);
    loops::lemma_loop_within(f, h);
    loops::lemma_filtered(preds, loops::dominated_by(f, h));
    loops::lemma_filtered(preds, loops::outside_of(f, h));
    let entering = loops::entering(f, h);
    assert(entering.len() == 1 && entering[0] == c.preheader);
    assert(l.latches.len() == 1 && l.latches[0] == c.body);
    cfg::lemma_preds_below(f, h, n, c.preheader);
    cfg::lemma_preds_below(f, h, n, c.body);
    query::lemma_terminator_wf(f, h);
    assert(c.preheader != c.body) by {
        let graph = cfg::pred_lists(f);
        assert(cfg::walk(graph, seq![c.body], c.body, c.body, Some(h)));
        assert(loops::latches(f, h).contains(c.body));
        assert(cfg::reaches(graph, c.body, c.body, Some(h)));
        assert(loops::in_loop(f, h, c.body));
        assert(loops::outside_of(f, h)(c.preheader));
    }
    let i0 = choose|i0: int| 0 <= i0 < preds.len() && preds[i0] == c.body;
    let i1 = choose|i1: int| 0 <= i1 < preds.len() && preds[i1] == c.preheader;
    assert forall|q: BlockId| f.has_block(q) && #[trigger] cfg::edge(f, q, h) implies q
        == c.preheader || q == c.body by {
        cfg::lemma_preds_below(f, h, n, q);
        let k = choose|k: int| 0 <= k < preds.len() && preds[k] == q;
        assert(k == i0 || k == i1);
    }
    assert forall|q: BlockId| f.has_block(q) && #[trigger] cfg::edge(f, q, c.body) implies q
        == h by {
        cfg::lemma_preds_below(f, c.body, n, q);
        let list = cfg::preds(f, c.body);
        let k = choose|k: int| 0 <= k < list.len() && list[k] == q;
        assert(list[0] == h);
    }
    assert(f.entry != h);
    threading_laws::lemma_succ(f.terminator(h), c.body);
    assert(cfg::edge(f, h, c.body));
    let head = f.block(h).insts;
    let (phi, compare) = lemma_header_from(
        head,
        cond,
        (Header { phi: None, condition: None }),
        0,
    );
    assert(head.len() <= usize::MAX && body_of(f, c).len() <= usize::MAX) by {
        assert(f.has_block(h) && f.has_block(c.body));
    }
    lemma_result(f, h, phi, c.counter);
    lemma_result(f, h, compare, cond);
    lemma_orderly(f, c, cond);
    assert(f.has_inst(h, phi) && f.inst(h, phi) == head[phi]);
    let incomings = head[phi].kind->Phi_incomings;
    assert(verify::defined(f, c.next)) by {
        threading_laws::lemma_incoming_entry(incomings, c.body);
        let k = choose|k: int| 0 <= k < incomings.len() && #[trigger] incomings[k] == (
            c.body,
            c.next,
        );
        assert(verify::block_valid(f, h));
        assert(verify::inst_valid(f, h, phi));
        assert(verify::available(f, incomings[k].1, incomings[k].0, verify::block_end(f, c.body)));
    }
    let next = lemma_next_place(f, c);
    assert(!cfg::dominates(f, h, c.preheader)) by {
        if cfg::dominates(f, h, c.preheader) {
            assert(loops::dominated_by(f, h)(c.preheader));
            assert(l.latches.contains(c.preheader));
        }
    }
    assert(cfg::dominates(f, h, c.body)) by {
        assert(loops::dominated_by(f, h)(l.latches[0]));
    }
    let insts = body_of(f, c);
    query::lemma_inst_wf(f, h, compare);
    assert(f.has_value(c.bound)) by {
        assert(f.inst(h, compare) == head[compare]);
        assert(edit::operands(head[compare].kind)[1] == c.bound);
    }
    assert(is_outer(insts, c.counter, cond, f.values.len(), c.bound)) by {
        if is_defined_before(insts, insts.len() as int, c.bound) {
            let j = choose|j: int| 0 <= j < insts.len() && (#[trigger] insts[j]).result == Some(
                c.bound,
            );
            lemma_result(f, c.body, j, c.bound);
            if cfg::dominates(f, c.body, c.preheader) {
                ssa::dominance_is_transitive(f, h, c.body, c.preheader);
            }
        }
    }
    assert(is_outer(insts, c.counter, cond, f.values.len(), c.initial)) by {
        if is_defined_before(insts, insts.len() as int, c.initial) {
            let j = choose|j: int| 0 <= j < insts.len() && (#[trigger] insts[j]).result == Some(
                c.initial,
            );
            lemma_result(f, c.body, j, c.initial);
        }
    }
    assert(!is_defined_before(insts, insts.len() as int, cond)) by {
        if is_defined_before(insts, insts.len() as int, cond) {
            let j = choose|j: int| 0 <= j < insts.len() && (#[trigger] insts[j]).result == Some(
                cond,
            );
            lemma_result(f, c.body, j, cond);
        }
    }
    Details { exit, condition: cond, phi, compare, next }
}

/// The next counter stands in the body.
proof fn lemma_next_place(f: FuncView, c: Candidate) -> (j: int)
    requires
        verify::valid(f),
        fits(f),
        f.has_block(c.body),
        util::def_block(f, c.next) == Some(c.body),
        util::def_kind(f, c.next) is Some,
        verify::defined(f, c.next),
    ensures
        0 <= j < body_of(f, c).len(),
        body_of(f, c)[j].result == Some(c.next),
        util::def_kind(f, c.next) == Some(body_of(f, c)[j].kind),
{
    match f.value(c.next).kind {
        ValueKindView::Inst(_, i) => i as int,
        _ => 0,
    }
}

// ---------------------------------------------------------------------------
// The unrolled function
// ---------------------------------------------------------------------------

/// The numbers of the new values and blocks.
pub struct Layout {
    /// The constants one and two.
    pub one: ValueId,
    pub two: ValueId,
    /// The first new value behind the constants.
    pub n: int,
}

pub open spec fn v(i: int) -> ValueId {
    ValueId(i as usize)
}

/// The copies of the first round.
pub open spec fn first_round(f: FuncView, c: Candidate, y: Layout) -> (
    Seq<InstView>,
    Map<ValueId, ValueId>,
    int,
) {
    copies(
        body_of(f, c),
        y.n + 4,
        Map::empty().insert(c.counter, v(y.n + 2)),
        body_of(f, c).len() as int,
    )
}

/// The counter behind the first round.
pub open spec fn middle(f: FuncView, c: Candidate, y: Layout) -> ValueId {
    util::apply(first_round(f, c, y).1, c.next)
}

/// The copies of the second round.
pub open spec fn second_round(f: FuncView, c: Candidate, y: Layout) -> (
    Seq<InstView>,
    Map<ValueId, ValueId>,
    int,
) {
    copies(
        body_of(f, c),
        first_round(f, c, y).2,
        Map::empty().insert(c.counter, middle(f, c, y)),
        body_of(f, c).len() as int,
    )
}

/// The counter behind the second round.
pub open spec fn last(f: FuncView, c: Candidate, y: Layout) -> ValueId {
    util::apply(second_round(f, c, y).1, c.next)
}

pub open spec fn new_header(f: FuncView) -> BlockId {
    BlockId(f.blocks.len() as usize)
}

pub open spec fn new_body(f: FuncView) -> BlockId {
    BlockId((f.blocks.len() + 1) as usize)
}

pub open spec fn is_const(g: FuncView, x: ValueId, i: i32, n: int) -> bool {
    x.0 < n && g.values[x.0 as int].kind == ValueKindView::Const(Const::Int(i))
}

/// What the unrolled function consists of.
pub open spec fn is_unrolled(f: FuncView, g: FuncView, c: Candidate, t: Details, y: Layout) -> bool {
    let nb = f.blocks.len() as int;
    let phi = f.block(c.header).insts[t.phi];
    &&& f.values.len() <= y.n <= f.values.len() + 2
    &&& g.entry == f.entry
    &&& g.params == f.params
    &&& g.blocks.len() == nb + 2
    &&& g.values.len() >= y.n
    &&& is_const(g, y.one, 1, y.n)
    &&& is_const(g, y.two, 2, y.n)
    &&& forall|i: int| 0 <= i < f.values.len() ==> #[trigger] g.values[i] == f.values[i]
    &&& forall|b: int|
        0 <= b < nb && b != c.preheader.0 && b != c.header.0 ==> #[trigger] g.blocks[b]
            == f.blocks[b]
    &&& g.block(c.preheader).insts == f.block(c.preheader).insts.push(
        InstView {
            result: Some(v(y.n)),
            kind: emit::binary(BinaryOp::Isub, c.bound, y.one),
        },
    ).push(
        InstView {
            result: Some(v(y.n + 1)),
            kind: emit::comparison(CompareOp::Ge, c.bound, y.two),
        },
    )
    &&& g.terminator(c.preheader) == Some(emit::branch(v(y.n + 1), nb as usize, c.header.0))
    &&& g.block(c.header).insts == f.block(c.header).insts.update(
        t.phi,
        InstView {
            kind: KindView::Phi {
                incomings: phi.kind->Phi_incomings.push((new_header(f), v(y.n + 2))),
            },
            ..phi
        },
    )
    &&& g.terminator(c.header) == f.terminator(c.header)
    &&& g.block(new_header(f)).insts == seq![
        InstView {
            result: Some(v(y.n + 2)),
            kind: emit::phi(seq![(c.preheader, c.initial), (new_body(f), last(f, c, y))]),
        },
        InstView {
            result: Some(v(y.n + 3)),
            kind: emit::comparison(CompareOp::Lt, v(y.n + 2), v(y.n)),
        },
    ]
    &&& g.terminator(new_header(f)) == Some(
        emit::branch(v(y.n + 3), (nb + 1) as usize, c.header.0),
    )
    &&& g.block(new_body(f)).insts == first_round(f, c, y).0 + second_round(f, c, y).0
    &&& g.terminator(new_body(f)) == Some(Terminator::Jump(new_header(f)))
}

proof fn lemma_find(f: FuncView, k: Const, from: int)
    requires
        0 <= from,
        f.values.len() <= usize::MAX,
    ensures
        util::find_const(f, k, from) matches Some(x) ==> x.0 < f.values.len()
            && f.values[x.0 as int].kind == ValueKindView::Const(k),
    decreases f.values.len() - from,
{
    if from < f.values.len() {
        lemma_find(f, k, from + 1);
    }
}

/// The first part of the rewriting: constants, tests and blocks.
pub open spec fn opened(f: FuncView, c: Candidate) -> (FuncView, Layout) {
    let one = util::const_value(f, Const::Int(1));
    let g1 = util::with_const(f, Const::Int(1));
    let two = util::const_value(g1, Const::Int(2));
    let g2 = util::with_const(g1, Const::Int(2));
    let p = c.preheader.0;
    let cutoff = g2.next_value();
    let g3 = emit::emitted(g2, p, emit::binary(BinaryOp::Isub, c.bound, one), Type::I32);
    let g4 = emit::emitted(g3, p, emit::comparison(CompareOp::Ge, c.bound, two), Type::I1);
    let header = g4.blocks.len() as usize;
    let number = names::decimal(c.header.0 as nat);
    let g5 = emit::block_added(g4, "unroll2.header."@ + number);
    let body = (g4.blocks.len() + 1) as usize;
    let g6 = emit::block_added(g5, "unroll2.body."@ + number);
    let counter = g6.next_value();
    let g7 = emit::emitted(
        g6,
        header,
        emit::phi(seq![(c.preheader, c.initial), (BlockId(body), c.initial)]),
        Type::I32,
    );
    let g8 = emit::emitted(
        g7,
        header,
        emit::comparison(CompareOp::Lt, counter, cutoff),
        Type::I1,
    );
    (g8, Layout { one, two, n: g2.values.len() as int })
}

/// What the first part consists of.
pub open spec fn is_opened(f: FuncView, g: FuncView, c: Candidate, y: Layout) -> bool {
    let nb = f.blocks.len() as int;
    &&& f.values.len() <= y.n <= f.values.len() + 2
    &&& g.entry == f.entry
    &&& g.params == f.params
    &&& g.blocks.len() == nb + 2
    &&& g.values.len() == y.n + 4
    &&& is_const(g, y.one, 1, y.n)
    &&& is_const(g, y.two, 2, y.n)
    &&& forall|i: int| 0 <= i < f.values.len() ==> #[trigger] g.values[i] == f.values[i]
    &&& g.values[y.n + 2].kind == ValueKindView::Inst(new_header(f), 0)
    &&& forall|b: int|
        0 <= b < nb && b != c.preheader.0 ==> #[trigger] g.blocks[b] == f.blocks[b]
    &&& g.block(c.preheader).insts == f.block(c.preheader).insts.push(
        InstView {
            result: Some(v(y.n)),
            kind: emit::binary(BinaryOp::Isub, c.bound, y.one),
        },
    ).push(
        InstView {
            result: Some(v(y.n + 1)),
            kind: emit::comparison(CompareOp::Ge, c.bound, y.two),
        },
    )
    &&& g.block(new_header(f)).insts == seq![
        InstView {
            result: Some(v(y.n + 2)),
            kind: emit::phi(seq![(c.preheader, c.initial), (new_body(f), c.initial)]),
        },
        InstView {
            result: Some(v(y.n + 3)),
            kind: emit::comparison(CompareOp::Lt, v(y.n + 2), v(y.n)),
        },
    ]
    &&& g.block(new_body(f)).insts == Seq::<InstView>::empty()
}

#[verifier::rlimit(60)]
proof fn lemma_opened(f: FuncView, c: Candidate)
    requires
        f.has_block(c.preheader),
        f.blocks.len() + 2 <= usize::MAX,
        f.values.len() + 10 <= usize::MAX,
    ensures
        is_opened(f, opened(f, c).0, c, opened(f, c).1),
{
    reveal(emit::emitted);
    reveal(emit::block_added);
    lemma_find(f, Const::Int(1), 0);
    let g1 = util::with_const(f, Const::Int(1));
    lemma_find(g1, Const::Int(2), 0);
    let (g, y) = opened(f, c);
    let insts = f.block(c.preheader).insts;
    assert(g.block(new_header(f)).insts =~= seq![
        InstView {
            result: Some(v(y.n + 2)),
            kind: emit::phi(seq![(c.preheader, c.initial), (new_body(f), c.initial)]),
        },
        InstView {
            result: Some(v(y.n + 3)),
            kind: emit::comparison(CompareOp::Lt, v(y.n + 2), v(y.n)),
        },
    ]);
}

/// The new values and blocks are numbered in turn.
proof fn lemma_numbers(f: FuncView, c: Candidate)
    requires
        f.has_block(c.preheader),
        f.blocks.len() + 2 <= usize::MAX,
        f.values.len() + 10 <= usize::MAX,
    ensures
        ({
            let one = util::const_value(f, Const::Int(1));
            let g1 = util::with_const(f, Const::Int(1));
            let two = util::const_value(g1, Const::Int(2));
            let g2 = util::with_const(g1, Const::Int(2));
            let p = c.preheader.0;
            let n = g2.values.len() as int;
            let g3 = emit::emitted(g2, p, emit::binary(BinaryOp::Isub, c.bound, one), Type::I32);
            let g4 = emit::emitted(g3, p, emit::comparison(CompareOp::Ge, c.bound, two), Type::I1);
            let number = names::decimal(c.header.0 as nat);
            let g5 = emit::block_added(g4, "unroll2.header."@ + number);
            let g6 = emit::block_added(g5, "unroll2.body."@ + number);
            let g7 = emit::emitted(
                g6,
                g4.blocks.len() as usize,
                emit::phi(
                    seq![
                        (c.preheader, c.initial),
                        (BlockId((g4.blocks.len() + 1) as usize), c.initial),
                    ],
                ),
                Type::I32,
            );
            &&& g4.blocks.len() == f.blocks.len()
            &&& g2.next_value() == v(n)
            &&& g3.next_value() == v(n + 1)
            &&& g6.next_value() == v(n + 2)
            &&& g7.next_value() == v(n + 3)
        }),
{
    reveal(emit::emitted);
    reveal(emit::block_added);
}

#[verifier::rlimit(60)]
proof fn lemma_unrolled(f: FuncView, c: Candidate, t: Details) -> (y: Layout)
    requires
        f.blocks.len() + 2 <= usize::MAX,
        f.values.len() + 10 + 2 * body_of(f, c).len() <= usize::MAX,
        is_counted_loop(f, c, t),
        f.value(c.counter).kind == ValueKindView::Inst(c.header, t.phi as usize),
        f.block(c.header).insts.len() <= usize::MAX,
    ensures
        is_unrolled(f, simple_loop_unroll::unrolled(f, f, c), c, t, y),
{
    lemma_opened(f, c);
    lemma_numbers(f, c);
    let (g8, y) = opened(f, c);
    let nb = f.blocks.len() as int;
    let header = nb as usize;
    let body = (nb + 1) as usize;
    let p = c.preheader.0;
    let n = body_of(f, c).len() as int;
    reveal(simple_loop_unroll::round_copied);
    reveal(emit::ended);
    reveal(emit::phi_set);
    reveal(emit::phi_extended);
    let start = Map::empty().insert(c.counter, v(y.n + 2));
    lemma_copied(f, c.body, g8, start, body, n);
    let (g9, mid) = simple_loop_unroll::round_copied(f, c, g8, v(y.n + 2), body);
    assert(mid == middle(f, c, y));
    let again = Map::empty().insert(c.counter, mid);
    lemma_copied(f, c.body, g9, again, body, n);
    let (g10, end) = simple_loop_unroll::round_copied(f, c, g9, mid, body);
    assert(end == last(f, c, y));
    let l1 = first_round(f, c, y).0;
    let l2 = second_round(f, c, y).0;
    assert(g10.block(new_body(f)).insts =~= l1 + l2);
    assert forall|b: int| 0 <= b < nb + 2 && b != body implies #[trigger] g10.blocks[b]
        == g8.blocks[b] by {
        assert(g9.blocks[b] == g8.blocks[b]);
    }
    assert forall|i: int| 0 <= i < g8.values.len() implies #[trigger] g10.values[i]
        == g8.values[i] by {
        assert(g9.values[i] == g8.values[i]);
    }
    let g11 = emit::ended(g10, p, emit::branch(v(y.n + 1), header, c.header.0));
    let g12 = emit::ended(g11, header, emit::branch(v(y.n + 3), body, c.header.0));
    let g13 = emit::ended(g12, body, Terminator::Jump(BlockId(header)));
    assert(g10.blocks[header as int] == g8.blocks[header as int]);
    assert(g10.blocks[p as int] == g8.blocks[p as int]);
    assert(g10.blocks[c.header.0 as int] == f.blocks[c.header.0 as int]) by {
        assert(g8.blocks[c.header.0 as int] == f.blocks[c.header.0 as int]);
    }
    assert(g13.values[y.n + 2] == g8.values[y.n + 2]);
    assert(g13.block(new_header(f)).insts == g8.block(new_header(f)).insts);
    let list = seq![(c.preheader, c.initial), (BlockId(body), end)];
    let g14 = emit::phi_set(g13, v(y.n + 2), list);
    assert(g13.has_inst(new_header(f), 0));
    assert(g14.block(new_header(f)).insts =~= seq![
        InstView { result: Some(v(y.n + 2)), kind: emit::phi(list) },
        InstView {
            result: Some(v(y.n + 3)),
            kind: emit::comparison(CompareOp::Lt, v(y.n + 2), v(y.n)),
        },
    ]);
    assert(g14.value(c.counter) == f.value(c.counter)) by {
        assert(g8.values[c.counter.0 as int] == f.values[c.counter.0 as int]);
        assert(g10.values[c.counter.0 as int] == g8.values[c.counter.0 as int]);
    }
    assert(g14.block(c.header) == f.block(c.header));
    assert(g14.has_inst(c.header, t.phi));
    let g = simple_loop_unroll::unrolled(f, f, c);
    assert(g == emit::phi_extended(g14, c.counter, (BlockId(header), v(y.n + 2))));
    assert forall|b: int| 0 <= b < nb && b != p && b != c.header.0 implies #[trigger] g.blocks[b]
        == f.blocks[b] by {
        assert(g10.blocks[b] == g8.blocks[b]);
        assert(g8.blocks[b] == f.blocks[b]);
    }
    assert forall|i: int| 0 <= i < f.values.len() implies #[trigger] g.values[i] == f.values[i] by {
        assert(g10.values[i] == g8.values[i]);
        assert(g8.values[i] == f.values[i]);
    }
    assert(g10.values[y.one.0 as int] == g8.values[y.one.0 as int]);
    assert(g10.values[y.two.0 as int] == g8.values[y.two.0 as int]);
    y
}

// ---------------------------------------------------------------------------
// Rounds
// ---------------------------------------------------------------------------

/// What holds of the two functions.
pub open spec fn is_ready<D, M>(
    f: FuncView,
    g: FuncView,
    m: Meaning<D, M>,
    number: spec_fn(D) -> i32,
    c: Candidate,
    t: Details,
    y: Layout,
) -> bool {
    &&& verify::valid(f)
    &&& fits(f)
    &&& f.blocks.len() + 2 <= usize::MAX
    &&& f.values.len() + 10 + 2 * body_of(f, c).len() <= usize::MAX
    &&& is_counted_loop(f, c, t)
    &&& is_unrolled(f, g, c, t, y)
    &&& is_arithmetic(m, number)
}

/// The value lives outside of the loop.
pub open spec fn is_apart(f: FuncView, c: Candidate, t: Details, w: ValueId) -> bool {
    is_outer(body_of(f, c), c.counter, t.condition, f.values.len(), w)
}

/// The data agree outside of the loop.
pub open spec fn agree<D>(
    f: FuncView,
    c: Candidate,
    t: Details,
    a: Map<ValueId, D>,
    b: Map<ValueId, D>,
) -> bool {
    forall|w: ValueId| #[trigger] is_apart(f, c, t, w) ==> a[w] == b[w]
}

pub open spec fn at<D, M>(b: BlockId, e: Map<ValueId, D>, x: M) -> State<D, M> {
    State::Running { block: b, env: e, memory: x }
}

/// The body counts, and changes only what it defines.
proof fn lemma_body<D, M>(
    f: FuncView,
    g: FuncView,
    m: Meaning<D, M>,
    number: spec_fn(D) -> i32,
    c: Candidate,
    t: Details,
    y: Layout,
    e: Map<ValueId, D>,
    x: M,
    i: int,
)
    requires
        is_ready(f, g, m, number, c, t, y),
        constants_kept(f, m, e),
        e[c.counter] == m.integer(i as i32),
        0 <= i < i32::MAX,
    ensures
        ({
            let insts = body_of(f, c);
            let r = semantics::executed(m, insts, insts.len() as int, e, x).0;
            &&& constants_kept(f, m, r)
            &&& r[c.next] == m.integer((i + 1) as i32)
            &&& forall|w: ValueId|
                !is_defined_before(insts, insts.len() as int, w) ==> #[trigger] r[w] == e[w]
        }),
{
    let insts = body_of(f, c);
    let n = insts.len() as int;
    let r = semantics::executed(m, insts, n, e, x).0;
    assert forall|w: ValueId| !is_defined_before(insts, n, w) implies #[trigger] r[w] == e[w] by {
        lemma_untouched(m, insts, n, e, x, w);
    }
    meaning_laws::lemma_results_are_computed(f);
    meaning_laws::lemma_execution_keeps_constants(f, m, c.body, n, e, x);
    meaning_laws::lemma_execution_keeps_constants(f, m, c.body, t.next, e, x);
    let (e1, x1) = semantics::executed(m, insts, t.next, e, x);
    assert(!is_defined_before(insts, t.next, c.counter)) by {
        if is_defined_before(insts, t.next, c.counter) {
            let j = choose|j: int| 0 <= j < t.next && (#[trigger] insts[j]).result == Some(
                c.counter,
            );
            assert(insts[j].result == Some(c.counter));
        }
    }
    lemma_untouched(m, insts, t.next, e, x, c.counter);
    assert(number(m.integer(i as i32)) == i);
    lemma_count(f, m, number, insts[t.next].kind, c.counter, e1, x1, i);
    assert(semantics::executed(m, insts, t.next + 1, e, x) == one(m, insts[t.next], e1, x1));
    lemma_stays(m, insts, t.next, n, e, x, c.next);
}

/// Arrival at the header sets the counter, in both functions.
proof fn lemma_enter<D, M>(
    f: FuncView,
    g: FuncView,
    m: Meaning<D, M>,
    number: spec_fn(D) -> i32,
    c: Candidate,
    t: Details,
    y: Layout,
    pred: BlockId,
    e: Map<ValueId, D>,
)
    requires
        is_ready(f, g, m, number, c, t, y),
        pred == c.preheader || pred == c.body || pred == new_header(f),
    ensures
        ({
            let a = f.block(c.header).insts;
            let b = g.block(c.header).insts;
            let w = if pred == c.preheader {
                c.initial
            } else if pred == c.body {
                c.next
            } else {
                v(y.n + 2)
            };
            &&& pred != new_header(f) ==> semantics::phis_assigned(a, a.len() as int, pred, e)
                == e.insert(c.counter, e[w])
            &&& semantics::phis_assigned(b, b.len() as int, pred, e) == e.insert(c.counter, e[w])
        }),
{
    let a = f.block(c.header).insts;
    let b = g.block(c.header).insts;
    let k = t.phi;
    let incomings = a[k].kind->Phi_incomings;
    let entry = (new_header(f), v(y.n + 2));
    lemma_pushed(incomings, entry, pred);
    assert(util::incoming_from(incomings, new_header(f)) is None) by {
        threading_laws::lemma_incoming_entry(incomings, new_header(f));
        assert(f.has_inst(c.header, k) && f.inst(c.header, k) == a[k]);
        query::lemma_inst_wf(f, c.header, k);
    }
    lemma_one_phi(a, k, pred, e);
    lemma_one_phi(b, k, pred, e);
}

proof fn lemma_pushed(
    incomings: Seq<(BlockId, ValueId)>,
    entry: (BlockId, ValueId),
    pred: BlockId,
)
    ensures
        util::incoming_from(incomings.push(entry), pred) == match util::incoming_from(
            incomings,
            pred,
        ) {
            Some(w) => Some(w),
            None => if entry.0 == pred {
                Some(entry.1)
            } else {
                None
            },
        },
    decreases incomings.len(),
{
    let all = incomings.push(entry);
    if incomings.len() > 0 {
        lemma_pushed(incomings.drop_first(), entry, pred);
        assert(all.drop_first() =~= incomings.drop_first().push(entry));
    } else {
        assert(all.drop_first() =~= Seq::<(BlockId, ValueId)>::empty());
        assert(util::incoming_from(all.drop_first(), pred) is None);
    }
}

/// A list with one phi.
pub proof fn lemma_one_phi<D>(
    insts: Seq<InstView>,
    k: int,
    pred: BlockId,
    e: Map<ValueId, D>,
)
    requires
        0 <= k < insts.len(),
        forall|i: int|
            0 <= i < insts.len() && i != k ==> !((#[trigger] insts[i]).kind is Phi),
        insts[k].kind is Phi,
        insts[k].result is Some,
    ensures
        semantics::phis_assigned(insts, insts.len() as int, pred, e) == match util::incoming_from(
            insts[k].kind->Phi_incomings,
            pred,
        ) {
            Some(w) => e.insert(insts[k].result->Some_0, e[w]),
            None => e,
        },
{
    let upto = insts.take(k);
    semantics::lemma_nothing_assigned(upto, k, pred, e);
    semantics::lemma_assigned_in_prefix(insts, upto, k, pred, e);
    assert(semantics::phis_assigned(insts, k + 1, pred, e) == match util::incoming_from(
        insts[k].kind->Phi_incomings,
        pred,
    ) {
        Some(w) => e.insert(insts[k].result->Some_0, e[w]),
        None => e,
    });
    semantics::lemma_assigned_by_prefix(insts, k + 1, insts.len() as int, pred, e);
}

/// The header compares the counter with the bound, in both functions.
proof fn lemma_head<D, M>(
    f: FuncView,
    g: FuncView,
    m: Meaning<D, M>,
    number: spec_fn(D) -> i32,
    c: Candidate,
    t: Details,
    y: Layout,
    e: Map<ValueId, D>,
    x: M,
)
    requires
        is_ready(f, g, m, number, c, t, y),
    ensures
        ({
            let a = f.block(c.header).insts;
            let b = g.block(c.header).insts;
            let d = of_compare(m, CompareOp::Lt, c.counter, c.bound, e[c.counter], e[c.bound], x);
            &&& semantics::executed(m, a, a.len() as int, e, x) == (e.insert(t.condition, d), x)
            &&& semantics::executed(m, b, b.len() as int, e, x) == (e.insert(t.condition, d), x)
        }),
{
    let a = f.block(c.header).insts;
    let b = g.block(c.header).insts;
    wrapper_laws::lemma_compare_one(
        m,
        t.condition.0 as int,
        CompareOp::Lt,
        c.counter,
        c.bound,
        e,
        x,
    );
    idiom_laws::lemma_single(m, a, t.compare, e, x);
    idiom_laws::lemma_single(m, b, t.compare, e, x);
}

/// A round of the loop, from the header to the header.
proof fn lemma_round<D, M>(
    f: FuncView,
    g: FuncView,
    m: Meaning<D, M>,
    number: spec_fn(D) -> i32,
    c: Candidate,
    t: Details,
    y: Layout,
    e: Map<ValueId, D>,
    x: M,
    i: int,
) -> (r: Map<ValueId, D>)
    requires
        is_ready(f, g, m, number, c, t, y),
        constants_kept(f, m, e),
        e[c.counter] == m.integer(i as i32),
        0 <= i < number(e[c.bound]),
    ensures
        ({
            let insts = body_of(f, c);
            let d = of_compare(m, CompareOp::Lt, c.counter, c.bound, e[c.counter], e[c.bound], x);
            let (e2, x2) = semantics::executed(
                m,
                insts,
                insts.len() as int,
                e.insert(t.condition, d),
                x,
            );
            &&& semantics::steps(f, m, at(c.header, e, x), 2) == at(c.header, r, x2)
            &&& r == e2.insert(c.counter, e2[c.next])
            &&& e2[c.next] == m.integer((i + 1) as i32)
            &&& constants_kept(f, m, r)
            &&& agree(f, c, t, e, r)
        }),
{
    let insts = body_of(f, c);
    let n = insts.len() as int;
    let d = of_compare(m, CompareOp::Lt, c.counter, c.bound, e[c.counter], e[c.bound], x);
    let s = at(c.header, e, x);
    lemma_head(f, g, m, number, c, t, y, e, x);
    let e1 = e.insert(t.condition, d);
    assert(number(m.integer(i as i32)) == i);
    assert((m.truth)(d));
    semantics::lemma_nothing_assigned(insts, n, c.header, e1);
    assert(semantics::step(f, m, s) == at(c.body, e1, x));
    lemma_body(f, g, m, number, c, t, y, e1, x, i);
    let (e2, x2) = semantics::executed(m, insts, n, e1, x);
    lemma_enter(f, g, m, number, c, t, y, c.body, e2);
    let r = e2.insert(c.counter, e2[c.next]);
    semantics::lemma_few_steps(f, m, s);
    assert forall|w: ValueId| #[trigger] is_apart(f, c, t, w) implies e[w] == r[w] by {
        assert(e2[w] == e1[w]);
    }
    r
}

/// The rounds that are left run side by side, and both loops are left.
proof fn lemma_rest<D, M>(
    f: FuncView,
    g: FuncView,
    m: Meaning<D, M>,
    number: spec_fn(D) -> i32,
    c: Candidate,
    t: Details,
    y: Layout,
    a: Map<ValueId, D>,
    b: Map<ValueId, D>,
    x: M,
    i: int,
) -> (r: (nat, Map<ValueId, D>, Map<ValueId, D>, M))
    requires
        is_ready(f, g, m, number, c, t, y),
        constants_kept(f, m, a),
        agree(f, c, t, a, b),
        a[c.counter] == m.integer(i as i32),
        b[c.counter] == a[c.counter],
        0 <= i <= i32::MAX,
    ensures
        r.0 >= 1,
        semantics::steps(f, m, at(c.header, a, x), r.0) == semantics::arrived(
            f,
            c.header,
            t.exit,
            r.1,
            r.3,
        ),
        semantics::steps(g, m, at(c.header, b, x), r.0) == semantics::arrived(
            g,
            c.header,
            t.exit,
            r.2,
            r.3,
        ),
        constants_kept(f, m, r.1),
        agree(f, c, t, r.1, r.2),
        r.1[c.counter] == r.2[c.counter],
        r.1[t.condition] == r.2[t.condition],
    decreases number(a[c.bound]) - i,
{
    let insts = body_of(f, c);
    let n = insts.len() as int;
    assert(is_apart(f, c, t, c.bound));
    let d = of_compare(m, CompareOp::Lt, c.counter, c.bound, a[c.counter], a[c.bound], x);
    let s = at(c.header, a, x);
    let u = at(c.header, b, x);
    lemma_head(f, g, m, number, c, t, y, a, x);
    lemma_head(f, g, m, number, c, t, y, b, x);
    assert(number(m.integer(i as i32)) == i);
    let a1 = a.insert(t.condition, d);
    let b1 = b.insert(t.condition, d);
    meaning_laws::lemma_results_are_computed(f);
    meaning_laws::lemma_execution_keeps_constants(
        f,
        m,
        c.header,
        f.block(c.header).insts.len() as int,
        a,
        x,
    );
    assert(agree(f, c, t, a1, b1)) by {
        assert forall|w: ValueId| #[trigger] is_apart(f, c, t, w) implies a1[w] == b1[w] by {
            assert(a[w] == b[w]);
        }
    }
    semantics::lemma_few_steps(f, m, s);
    semantics::lemma_few_steps(g, m, u);
    if i < number(a[c.bound]) {
        assert(g.block(c.body) == f.block(c.body)) by {
            assert(g.blocks[c.body.0 as int] == f.blocks[c.body.0 as int]);
        }
        let a3 = lemma_round(f, g, m, number, c, t, y, a, x, i);
        semantics::lemma_nothing_assigned(insts, n, c.header, b1);
        assert(semantics::step(g, m, u) == at(c.body, b1, x));
        assert forall|w: ValueId| #[trigger]
            is_outer(insts, c.counter, t.condition, f.values.len(), w) implies a1[w] == b1[w] by {
            assert(is_apart(f, c, t, w));
        }
        lemma_fresh(m, insts, c.counter, t.condition, f.values.len(), n, a1, b1, x);
        let (a2, x2) = semantics::executed(m, insts, n, a1, x);
        let b2 = semantics::executed(m, insts, n, b1, x).0;
        assert(a2[c.next] == b2[c.next]) by {
            assert(insts[t.next].result == Some(c.next));
        }
        lemma_enter(f, g, m, number, c, t, y, c.body, b2);
        let b3 = b2.insert(c.counter, b2[c.next]);
        assert(semantics::steps(g, m, u, 2) == at(c.header, b3, x2));
        assert(agree(f, c, t, a3, b3)) by {
            assert forall|w: ValueId| #[trigger] is_apart(f, c, t, w) implies a3[w] == b3[w] by {
                assert(is_outer(insts, c.counter, t.condition, f.values.len(), w));
            }
        }
        assert(a3[c.bound] == a[c.bound]);
        let (k, p, q, z) = lemma_rest(f, g, m, number, c, t, y, a3, b3, x2, i + 1);
        semantics::lemma_steps_add(f, m, s, 2, k);
        semantics::lemma_steps_add(g, m, u, 2, k);
        (2 + k, p, q, z)
    } else {
        (1, a1, b1, x)
    }
}

/// The unrolled rounds do what two rounds at a time do, up to the loop that is
/// left.
#[verifier::rlimit(60)]
proof fn lemma_pairs<D, M>(
    f: FuncView,
    g: FuncView,
    m: Meaning<D, M>,
    number: spec_fn(D) -> i32,
    c: Candidate,
    t: Details,
    y: Layout,
    a: Map<ValueId, D>,
    b: Map<ValueId, D>,
    x: M,
    i: int,
) -> (r: (nat, nat, Map<ValueId, D>, Map<ValueId, D>, M, int))
    requires
        is_ready(f, g, m, number, c, t, y),
        constants_kept(f, m, a),
        agree(f, c, t, a, b),
        a[c.counter] == m.integer(i as i32),
        b[v(y.n + 2)] == a[c.counter],
        number(b[v(y.n)]) == number(a[c.bound]) - 1,
        0 <= i <= number(a[c.bound]),
    ensures
        r.1 >= 1,
        semantics::steps(f, m, at(c.header, a, x), r.0) == at(c.header, r.2, r.4),
        semantics::steps(g, m, at(new_header(f), b, x), r.1) == at(c.header, r.3, r.4),
        constants_kept(f, m, r.2),
        agree(f, c, t, r.2, r.3),
        r.2[c.counter] == m.integer(r.5 as i32),
        r.3[c.counter] == r.2[c.counter],
        0 <= r.5 <= i32::MAX,
    decreases number(a[c.bound]) - i,
{
    let insts = body_of(f, c);
    let n = insts.len() as int;
    let nv = f.values.len();
    let s = at(c.header, a, x);
    let u = at(new_header(f), b, x);
    let head = g.block(new_header(f)).insts;
    assert(is_apart(f, c, t, c.bound));
    assert(number(m.integer(i as i32)) == i);
    let d = of_compare(m, CompareOp::Lt, v(y.n + 2), v(y.n), b[v(y.n + 2)], b[v(y.n)], x);
    wrapper_laws::lemma_compare_one(m, y.n + 3, CompareOp::Lt, v(y.n + 2), v(y.n), b, x);
    idiom_laws::lemma_single(m, head, 1, b, x);
    let b1 = b.insert(v(y.n + 3), d);
    assert(semantics::executed(m, head, head.len() as int, b, x) == (b1, x));
    semantics::lemma_few_steps(g, m, u);
    if i < number(a[c.bound]) - 1 {
        let d1 = of_compare(m, CompareOp::Lt, c.counter, c.bound, a[c.counter], a[c.bound], x);
        let a1 = a.insert(t.condition, d1);
        let a3 = lemma_round(f, g, m, number, c, t, y, a, x, i);
        let (a2, x2) = semantics::executed(m, insts, n, a1, x);
        assert(a3[c.bound] == a[c.bound]);
        let d3 = of_compare(m, CompareOp::Lt, c.counter, c.bound, a3[c.counter], a3[c.bound], x2);
        let a4 = a3.insert(t.condition, d3);
        let a6 = lemma_round(f, g, m, number, c, t, y, a3, x2, i + 1);
        let (a5, x5) = semantics::executed(m, insts, n, a4, x2);
        assert(a6[c.bound] == a3[c.bound]);
        // The copies.
        let start = Map::empty().insert(c.counter, v(y.n + 2));
        let (l1, m1, id1) = first_round(f, c, y);
        assert(copies_agree(insts, c.counter, t.condition, nv, start, 0, y.n + 4, a1, b1)) by {
            assert forall|w: ValueId| #[trigger]
                is_outer(insts, c.counter, t.condition, nv, w) implies a1[w] == b1[w] by {
                assert(is_apart(f, c, t, w));
            }
        }
        lemma_copies_run(m, insts, c.counter, t.condition, nv, y.n + 4, start, n, a1, b1, x);
        let b2 = semantics::executed(m, l1, l1.len() as int, b1, x).0;
        let mid = middle(f, c, y);
        assert(m1.contains_key(c.next)) by {
            assert(insts[t.next].result == Some(c.next));
        }
        assert(b2[mid] == a2[c.next]);
        let again = Map::empty().insert(c.counter, mid);
        let (l2, m2, id2) = second_round(f, c, y);
        assert(copies_agree(insts, c.counter, t.condition, nv, again, 0, id1, a4, b2)) by {
            assert forall|w: ValueId| #[trigger]
                is_outer(insts, c.counter, t.condition, nv, w) implies a4[w] == b2[w] by {
                assert(is_apart(f, c, t, w));
                assert(a[w] == a3[w]);
                assert(b2[w] == b1[w]);
            }
        }
        lemma_copies_run(m, insts, c.counter, t.condition, nv, id1, again, n, a4, b2, x2);
        let b3 = semantics::executed(m, l2, l2.len() as int, b2, x2).0;
        assert(m2.contains_key(c.next)) by {
            assert(insts[t.next].result == Some(c.next));
        }
        assert(b3[last(f, c, y)] == a5[c.next]);
        let body = g.block(new_body(f)).insts;
        semantics::lemma_executed_in_turn(m, l1, l2, l2.len() as int, b1, x);
        assert(semantics::executed(m, body, body.len() as int, b1, x) == (b3, x5));
        assert forall|k: int| 0 <= k < body.len() implies !((#[trigger] body[k]).kind is Phi) by {
            if k < l1.len() {
                assert(body[k] == l1[k]);
            } else {
                assert(body[k] == l2[k - l1.len()]);
            }
        }
        semantics::lemma_nothing_assigned(body, body.len() as int, new_header(f), b1);
        assert(semantics::step(g, m, u) == at(new_body(f), b1, x));
        lemma_enter_pairs(f, g, m, number, c, t, y, new_body(f), b3);
        let b4 = b3.insert(v(y.n + 2), b3[last(f, c, y)]);
        assert(semantics::steps(g, m, u, 2) == at(new_header(f), b4, x5));
        semantics::lemma_steps_add(f, m, s, 2, 2);
        assert(agree(f, c, t, a6, b4)) by {
            assert forall|w: ValueId| #[trigger] is_apart(f, c, t, w) implies a6[w] == b4[w] by {
                assert(a[w] == a3[w] && a3[w] == a6[w]);
                assert(b3[w] == b2[w] && b2[w] == b1[w]);
            }
        }
        assert(b4[v(y.n)] == b[v(y.n)]) by {
            assert(b3[v(y.n)] == b2[v(y.n)] && b2[v(y.n)] == b1[v(y.n)]);
        }
        let (k, j, p, q, z, e) = lemma_pairs(
            f,
            g,
            m,
            number,
            c,
            t,
            y,
            a6,
            b4,
            x5,
            i + 2,
        );
        semantics::lemma_steps_add(f, m, s, 4, k);
        semantics::lemma_steps_add(g, m, u, 2, j);
        (4 + k, 2 + j, p, q, z, e)
    } else {
        lemma_enter(f, g, m, number, c, t, y, new_header(f), b1);
        let b2 = b1.insert(c.counter, b1[v(y.n + 2)]);
        assert(semantics::step(g, m, u) == at(c.header, b2, x));
        assert(agree(f, c, t, a, b2)) by {
            assert forall|w: ValueId| #[trigger] is_apart(f, c, t, w) implies a[w] == b2[w] by {
            }
        }
        (0, 1, a, b2, x, i)
    }
}

/// Arrival at the unrolled loop.
proof fn lemma_enter_pairs<D, M>(
    f: FuncView,
    g: FuncView,
    m: Meaning<D, M>,
    number: spec_fn(D) -> i32,
    c: Candidate,
    t: Details,
    y: Layout,
    pred: BlockId,
    e: Map<ValueId, D>,
)
    requires
        is_ready(f, g, m, number, c, t, y),
        pred == c.preheader || pred == new_body(f),
    ensures
        ({
            let insts = g.block(new_header(f)).insts;
            let w = if pred == c.preheader {
                c.initial
            } else {
                last(f, c, y)
            };
            semantics::phis_assigned(insts, insts.len() as int, pred, e) == e.insert(
                v(y.n + 2),
                e[w],
            )
        }),
{
    let insts = g.block(new_header(f)).insts;
    let list = seq![(c.preheader, c.initial), (new_body(f), last(f, c, y))];
    reveal_with_fuel(util::incoming_from, 3);
    assert(list.drop_first() =~= seq![(new_body(f), last(f, c, y))]);
    lemma_one_phi(insts, 0, pred, e);
}

// ---------------------------------------------------------------------------
// Both functions side by side
// ---------------------------------------------------------------------------

/// What only the loop, or only the new function, reads.
pub open spec fn unread(f: FuncView, c: Candidate) -> Set<ValueId> {
    Set::new(
        |w: ValueId|
            !f.has_value(w) || is_defined_before(body_of(f, c), body_of(f, c).len() as int, w),
    )
}

/// Outside of the loop nothing reads what its body defines.
pub open spec fn is_unread(f: FuncView, c: Candidate) -> bool {
    &&& forall|b: BlockId, i: int|
        f.has_inst(b, i) && b != c.header && b != c.body ==> semantics::ignores(
            (#[trigger] f.inst(b, i)).kind,
            unread(f, c),
        )
    &&& forall|b: BlockId|
        f.has_block(b) && b != c.header && b != c.body ==> end_ignores(
            #[trigger] f.terminator(b),
            unread(f, c),
        )
}

proof fn lemma_unread(f: FuncView, c: Candidate)
    requires
        f.wf(),
        !simple_loop_unroll::body_values_escape(f, c),
    ensures
        is_unread(f, c),
{
    let insts = body_of(f, c);
    let n = insts.len() as int;
    assert forall|w: ValueId| is_defined_before(insts, n, w) implies #[trigger]
    simple_loop_unroll::is_body_value(f, c, w) by {
        let j = choose|j: int| 0 <= j < n && (#[trigger] insts[j]).result == Some(w);
        assert(f.inst(c.body, j).result == Some(w));
    }
    assert forall|b: BlockId, i: int|
        f.has_inst(b, i) && b != c.header && b != c.body implies semantics::ignores(
        (#[trigger] f.inst(b, i)).kind,
        unread(f, c),
    ) by {
        assert(f.has_block(b));
        assert(!simple_loop_unroll::block_leaks(f, c, b));
        query::lemma_inst_wf(f, b, i);
        let kind = f.inst(b, i).kind;
        let list = edit::operands(kind);
        assert(!simple_loop_unroll::leaks(f, c, b, kind));
        assert forall|k: int| 0 <= k < list.len() implies !unread(f, c).contains(
            #[trigger] list[k],
        ) by {
            lemma_operand_exists(f, kind, k);
            if is_defined_before(insts, n, list[k]) {
                assert(simple_loop_unroll::is_body_value(f, c, list[k]));
            }
        }
    }
    assert forall|b: BlockId| f.has_block(b) && b != c.header && b != c.body implies end_ignores(
        #[trigger] f.terminator(b),
        unread(f, c),
    ) by {
        assert(!simple_loop_unroll::block_leaks(f, c, b));
        query::lemma_terminator_wf(f, b);
        let list = edit::terminator_reads(f.terminator(b));
        if list.len() > 0 {
            let w = list[0];
            if is_defined_before(insts, n, w) {
                assert(simple_loop_unroll::is_body_value(f, c, list[0]));
            }
        }
    }
}

/// Constants stay what they are.
pub proof fn lemma_constants_on<D, M>(g: FuncView, m: Meaning<D, M>, s: State<D, M>, n: nat)
    requires
        verify::valid(g),
        meaning_laws::sound(g, m, s),
    ensures
        meaning_laws::sound(g, m, semantics::steps(g, m, s, n)),
    decreases n,
{
    if n > 0 {
        lemma_constants_on(g, m, s, (n - 1) as nat);
        let u = semantics::steps(g, m, s, (n - 1) as nat);
        if let State::Running { block, env, memory } = u {
            let insts = g.block(block).insts;
            meaning_laws::lemma_results_are_computed(g);
            meaning_laws::lemma_execution_keeps_constants(
                g,
                m,
                block,
                insts.len() as int,
                env,
                memory,
            );
            let (e1, x1) = semantics::executed(m, insts, insts.len() as int, env, memory);
            query::lemma_terminator_wf(g, block);
            if let Some(target) = threading_laws::next_block(m, g.terminator(block), e1) {
                let there = g.block(target).insts;
                meaning_laws::lemma_assignment_keeps_constants(
                    g,
                    m,
                    target,
                    there.len() as int,
                    block,
                    e1,
                );
            }
        }
    }
}

/// The states of the two functions that go together: both are outside of the
/// loop.
pub open spec fn goes_with<D, M>(
    f: FuncView,
    g: FuncView,
    m: Meaning<D, M>,
    c: Candidate,
    s: State<D, M>,
    t: State<D, M>,
) -> bool {
    match (s, t) {
        (
            State::Running { block, env, memory: x },
            State::Running { block: other, env: data, memory: z },
        ) => {
            &&& block == other
            &&& x == z
            &&& f.has_block(block)
            &&& block != c.header
            &&& block != c.body
            &&& constants_kept(f, m, env)
            &&& constants_kept(g, m, data)
            &&& alike(env, data, unread(f, c))
        },
        _ => s == t,
    }
}

/// Both functions arrive at a block outside of the loop.
proof fn lemma_arrive<D, M>(
    f: FuncView,
    g: FuncView,
    m: Meaning<D, M>,
    number: spec_fn(D) -> i32,
    c: Candidate,
    t: Details,
    y: Layout,
    pred: BlockId,
    target: BlockId,
    a: Map<ValueId, D>,
    b: Map<ValueId, D>,
    x: M,
)
    requires
        is_ready(f, g, m, number, c, t, y),
        is_unread(f, c),
        verify::valid(g),
        f.has_block(target),
        target != c.header,
        target != c.body,
        constants_kept(f, m, a),
        meaning_laws::sound(g, m, semantics::arrived(g, pred, target, b, x)),
        alike(a, b, unread(f, c)),
    ensures
        goes_with(
            f,
            g,
            m,
            c,
            semantics::arrived(f, pred, target, a, x),
            semantics::arrived(g, pred, target, b, x),
        ),
{
    let there = f.block(target).insts;
    let n = there.len() as int;
    let now = g.block(target).insts;
    meaning_laws::lemma_results_are_computed(f);
    meaning_laws::lemma_assignment_keeps_constants(f, m, target, n, pred, a);
    assert forall|i: int| 0 <= i < n implies semantics::ignores(
        (#[trigger] there[i]).kind,
        unread(f, c),
    ) by {
        assert(f.has_inst(target, i) && f.inst(target, i) == there[i]);
    }
    semantics::lemma_assigned_alike(there, n, pred, a, b, unread(f, c));
    if target == c.preheader {
        semantics::lemma_assigned_by_prefix(now, n, now.len() as int, pred, b);
        semantics::lemma_assigned_in_prefix(now, there, n, pred, b);
    } else {
        assert(g.blocks[target.0 as int] == f.blocks[target.0 as int]);
    }
}

/// A step outside of the loop, but for the preheader.
proof fn lemma_outside<D, M>(
    f: FuncView,
    g: FuncView,
    m: Meaning<D, M>,
    number: spec_fn(D) -> i32,
    c: Candidate,
    t: Details,
    y: Layout,
    s: State<D, M>,
    u: State<D, M>,
)
    requires
        is_ready(f, g, m, number, c, t, y),
        is_unread(f, c),
        verify::valid(g),
        goes_with(f, g, m, c, s, u),
        s matches State::Running { block, .. } ==> block != c.preheader,
    ensures
        goes_with(f, g, m, c, semantics::step(f, m, s), semantics::step(g, m, u)),
{
    if let State::Running { block, env, memory: x } = s {
        let data = u->Running_env;
        let insts = f.block(block).insts;
        let n = insts.len() as int;
        assert(g.blocks[block.0 as int] == f.blocks[block.0 as int]);
        assert(g.block(block) == f.block(block));
        assert forall|i: int| 0 <= i < n implies semantics::ignores(
            (#[trigger] insts[i]).kind,
            unread(f, c),
        ) by {
            assert(f.has_inst(block, i) && f.inst(block, i) == insts[i]);
        }
        semantics::lemma_executed_alike(m, insts, n, env, data, x, unread(f, c));
        meaning_laws::lemma_results_are_computed(f);
        meaning_laws::lemma_results_are_computed(g);
        meaning_laws::lemma_execution_keeps_constants(f, m, block, n, env, x);
        meaning_laws::lemma_execution_keeps_constants(g, m, block, n, data, x);
        let (e1, x1) = semantics::executed(m, insts, n, env, x);
        let d1 = semantics::executed(m, insts, n, data, x).0;
        assert(end_ignores(f.terminator(block), unread(f, c)));
        meaning_laws::lemma_targets(f, block);
        query::lemma_terminator_wf(f, block);
        if let Some(target) = threading_laws::next_block(m, f.terminator(block), e1) {
            assert(cfg::edge(f, block, target));
            let there = g.block(target).insts;
            meaning_laws::lemma_assignment_keeps_constants(
                g,
                m,
                target,
                there.len() as int,
                block,
                d1,
            );
            lemma_arrive(f, g, m, number, c, t, y, block, target, e1, d1, x1);
        }
    }
}

/// From the preheader both functions run through the loop.
#[verifier::rlimit(60)]
proof fn lemma_through<D, M>(
    f: FuncView,
    g: FuncView,
    m: Meaning<D, M>,
    number: spec_fn(D) -> i32,
    c: Candidate,
    t: Details,
    y: Layout,
    s: State<D, M>,
    u: State<D, M>,
) -> (r: (nat, nat))
    requires
        is_ready(f, g, m, number, c, t, y),
        is_unread(f, c),
        verify::valid(g),
        goes_with(f, g, m, c, s, u),
        s matches State::Running { block, .. } && block == c.preheader,
    ensures
        r.0 >= 1,
        r.1 >= 1,
        goes_with(
            f,
            g,
            m,
            c,
            semantics::steps(f, m, s, r.0),
            semantics::steps(g, m, u, r.1),
        ),
{
    let env = s->Running_env;
    let x = s->Running_memory;
    let data = u->Running_env;
    let insts = f.block(c.preheader).insts;
    let n = insts.len() as int;
    let now = g.block(c.preheader).insts;
    assert forall|i: int| 0 <= i < n implies semantics::ignores(
        (#[trigger] insts[i]).kind,
        unread(f, c),
    ) by {
        assert(f.has_inst(c.preheader, i) && f.inst(c.preheader, i) == insts[i]);
    }
    semantics::lemma_executed_alike(m, insts, n, env, data, x, unread(f, c));
    meaning_laws::lemma_results_are_computed(f);
    meaning_laws::lemma_results_are_computed(g);
    meaning_laws::lemma_execution_keeps_constants(f, m, c.preheader, n, env, x);
    meaning_laws::lemma_execution_keeps_constants(g, m, c.preheader, n, data, x);
    semantics::lemma_executed_prefix(m, now, insts, n, data, x);
    let (a1, x1) = semantics::executed(m, insts, n, env, x);
    let b1 = semantics::executed(m, insts, n, data, x).0;
    // The tests.
    let cutoff = m.of_two(BinaryOp::Isub, c.bound, y.one, b1[c.bound], b1[y.one], x1);
    wrapper_laws::lemma_binary_one(m, y.n, BinaryOp::Isub, c.bound, y.one, b1, x1);
    let b2 = b1.insert(v(y.n), cutoff);
    assert(semantics::executed(m, now, n + 1, data, x) == (b2, x1));
    let enough = of_compare(m, CompareOp::Ge, c.bound, y.two, b2[c.bound], b2[y.two], x1);
    wrapper_laws::lemma_compare_one(m, y.n + 1, CompareOp::Ge, c.bound, y.two, b2, x1);
    let b3 = b2.insert(v(y.n + 1), enough);
    assert(semantics::executed(m, now, n + 2, data, x) == (b3, x1));
    assert(b1[y.one] == m.integer(1) && b1[y.two] == m.integer(2)) by {
        assert(g.has_value(y.one) && g.has_value(y.two));
        assert(g.value(y.one).kind is Const && g.value(y.two).kind is Const);
    }
    assert(number(m.integer(1)) == 1 && number(m.integer(2)) == 2);
    let bound = number(a1[c.bound]) as int;
    assert(!unread(f, c).contains(c.bound) && !unread(f, c).contains(c.initial));
    assert(b1[c.bound] == a1[c.bound] && b1[c.initial] == a1[c.initial]);
    assert((m.truth)(enough) == (bound >= 2));
    assert(a1[c.initial] == m.integer(0)) by {
        assert(f.has_value(c.initial));
    }
    lemma_enter(f, g, m, number, c, t, y, c.preheader, a1);
    lemma_enter(f, g, m, number, c, t, y, c.preheader, b3);
    let a4 = a1.insert(c.counter, a1[c.initial]);
    meaning_laws::lemma_assignment_keeps_constants(
        f,
        m,
        c.header,
        f.block(c.header).insts.len() as int,
        c.preheader,
        a1,
    );
    assert(semantics::step(f, m, s) == at(c.header, a4, x1));
    semantics::lemma_few_steps(f, m, s);
    semantics::lemma_few_steps(g, m, u);
    let (k, j, a5, b5, x5, i) = if bound >= 2 {
        lemma_enter_pairs(f, g, m, number, c, t, y, c.preheader, b3);
        let b4 = b3.insert(v(y.n + 2), b3[c.initial]);
        assert(semantics::step(g, m, u) == at(new_header(f), b4, x1));
        assert(number(m.integer((bound - 1) as i32)) == bound - 1);
        assert(agree(f, c, t, a4, b4)) by {
            assert forall|w: ValueId| #[trigger] is_apart(f, c, t, w) implies a4[w] == b4[w] by {
                assert(!unread(f, c).contains(w));
            }
        }
        lemma_pairs(f, g, m, number, c, t, y, a4, b4, x1, 0)
    } else {
        let b4 = b3.insert(c.counter, b3[c.initial]);
        assert(semantics::step(g, m, u) == at(c.header, b4, x1));
        assert(agree(f, c, t, a4, b4)) by {
            assert forall|w: ValueId| #[trigger] is_apart(f, c, t, w) implies a4[w] == b4[w] by {
                assert(!unread(f, c).contains(w));
            }
        }
        (0nat, 0nat, a4, b4, x1, 0int)
    };
    let (l, a6, b6, x6) = lemma_rest(f, g, m, number, c, t, y, a5, b5, x5, i);
    semantics::lemma_steps_add(f, m, at(c.header, a4, x1), k, l);
    semantics::lemma_steps_add(f, m, s, 1, k + l);
    semantics::lemma_steps_add(g, m, semantics::step(g, m, u), j, l);
    semantics::lemma_steps_add(g, m, u, 1, j + l);
    assert(alike(a6, b6, unread(f, c))) by {
        assert forall|w: ValueId| !unread(f, c).contains(w) implies #[trigger] a6[w] == b6[w] by {
            if w != c.counter && w != t.condition {
                assert(is_apart(f, c, t, w));
            }
        }
    }
    // The constants of the new function are not changed on the way.
    lemma_constants_on(g, m, u, 1 + (j + l));
    lemma_arrive(f, g, m, number, c, t, y, c.header, t.exit, a6, b6, x6);
    (1 + (k + l), 1 + (j + l))
}

/// The loop can be unrolled.
pub open spec fn can_unroll(f: FuncView, c: Candidate, t: Details) -> bool {
    &&& is_counted_loop(f, c, t)
    &&& f.value(c.counter).kind == ValueKindView::Inst(c.header, t.phi as usize)
    &&& is_unread(f, c)
}

/// The loop can be unrolled, whatever its details.
pub open spec fn has_loop(f: FuncView, c: Candidate) -> bool {
    exists|t: Details| can_unroll(f, c, t)
}

/// There is room for the copies of the loop.
pub open spec fn has_room(f: FuncView, c: Candidate) -> bool {
    &&& fits(f)
    &&& f.blocks.len() + 2 <= usize::MAX
    &&& f.values.len() + 10 + 2 * body_of(f, c).len() <= usize::MAX
}

proof fn lemma_unrolling<D, M>(
    f: FuncView,
    c: Candidate,
    t: Details,
    m: Meaning<D, M>,
    number: spec_fn(D) -> i32,
    args: Map<ValueId, D>,
    memory: M,
    out: State<D, M>,
)
    requires
        verify::valid(f),
        has_room(f, c),
        can_unroll(f, c, t),
        verify::valid(simple_loop_unroll::unrolled(f, f, c)),
        is_arithmetic(m, number),
    ensures
        semantics::yields(simple_loop_unroll::unrolled(f, f, c), m, args, memory, out)
            == semantics::yields(f, m, args, memory, out),
{
    let g = simple_loop_unroll::unrolled(f, f, c);
    assert(f.has_block(c.header));
    let y = lemma_unrolled(f, c, t);
    assert(is_ready(f, g, m, number, c, t, y));
    let rel = |s: State<D, M>, u: State<D, M>| goes_with(f, g, m, c, s, u);
    assert forall|s: State<D, M>, u: State<D, M>| #[trigger]
        semantics::meets(f, g, m, rel, s, u) by {
        if rel(s, u) {
            let through = match s {
                State::Running { block, .. } => block == c.preheader,
                _ => false,
            };
            if through {
                let (k, j) = lemma_through(f, g, m, number, c, t, y, s, u);
                assert(rel(semantics::steps(f, m, s, k), semantics::steps(g, m, u, j)));
            } else {
                lemma_outside(f, g, m, number, c, t, y, s, u);
                semantics::lemma_few_steps(f, m, s);
                semantics::lemma_few_steps(g, m, u);
                assert(rel(semantics::steps(f, m, s, 1), semantics::steps(g, m, u, 1)));
            }
        }
    }
    assert(semantics::end_alike(rel));
    let s = semantics::start(f, m, args, memory);
    let u = semantics::start(g, m, args, memory);
    assert(rel(s, u)) by {
        let a = semantics::initial(f, m, args);
        let b = semantics::initial(g, m, args);
        assert forall|w: ValueId| !unread(f, c).contains(w) implies #[trigger] a[w] == b[w] by {
            assert(g.values[w.0 as int] == f.values[w.0 as int]);
        }
    }
    semantics::meeting_functions_compute_the_same(f, g, m, rel, args, memory, out);
}

// ---------------------------------------------------------------------------
// All loops of a function
// ---------------------------------------------------------------------------

/// Copies of the same instructions are the same.
proof fn lemma_same_copies(
    f: FuncView,
    g: FuncView,
    b: BlockId,
    h: FuncView,
    map: Map<ValueId, ValueId>,
    target: usize,
    n: int,
)
    requires
        f.block(b).insts == g.block(b).insts,
        0 <= n <= f.block(b).insts.len(),
        forall|i: int|
            0 <= i < f.block(b).insts.len() ==> ((#[trigger] f.block(b).insts[i]).result
                matches Some(r) ==> g.value(r) == f.value(r)),
    ensures
        simple_loop_unroll::insts_copied(f, b, h, map, target, n)
            == simple_loop_unroll::insts_copied(g, b, h, map, target, n),
    decreases n,
{
    if n > 0 {
        lemma_same_copies(f, g, b, h, map, target, n - 1);
        let inst = f.block(b).insts[n - 1];
        assert(f.inst(b, n - 1) == inst && g.inst(b, n - 1) == inst);
    }
}

proof fn lemma_same_unrolled(f: FuncView, g: FuncView, c: Candidate)
    requires
        f.block(c.body).insts == g.block(c.body).insts,
        forall|i: int|
            0 <= i < f.block(c.body).insts.len() ==> ((#[trigger] f.block(c.body).insts[i]).result
                matches Some(r) ==> g.value(r) == f.value(r)),
    ensures
        simple_loop_unroll::unrolled(f, g, c) == simple_loop_unroll::unrolled(g, g, c),
{
    reveal(simple_loop_unroll::round_copied);
    assert forall|h: FuncView, counter: ValueId, target: usize|
        #[trigger] simple_loop_unroll::round_copied(f, c, h, counter, target)
            == simple_loop_unroll::round_copied(g, c, h, counter, target) by {
        let start = Map::empty().insert(c.counter, counter);
        lemma_same_copies(f, g, c.body, h, start, target, f.block(c.body).insts.len() as int);
    }
}

/// Copies read new values and what the instructions read.
proof fn lemma_copies_read(
    insts: Seq<InstView>,
    first: int,
    start: Map<ValueId, ValueId>,
    n: int,
    nv: nat,
    known: Set<ValueId>,
)
    requires
        0 <= n <= insts.len(),
        nv <= first,
        first + insts.len() <= usize::MAX,
        forall|i: int|
            0 <= i < insts.len() ==> !((#[trigger] insts[i]).kind is Phi) && semantics::ignores(
                insts[i].kind,
                known,
            ),
        forall|w: ValueId| #[trigger] start.contains_key(w) ==> start[w].0 >= nv,
        forall|w: ValueId| #[trigger] known.contains(w) ==> w.0 < nv,
    ensures
        ({
            let (list, map, id) = copies(insts, first, start, n);
            &&& first <= id <= first + n
            &&& forall|w: ValueId| #[trigger] map.contains_key(w) ==> map[w].0 >= nv
            &&& forall|i: int|
                0 <= i < list.len() ==> semantics::ignores((#[trigger] list[i]).kind, known)
        }),
    decreases n,
{
    if n > 0 {
        lemma_copies_read(insts, first, start, n - 1, nv, known);
        let (list, map, id) = copies(insts, first, start, n - 1);
        let inst = insts[n - 1];
        if !(inst.kind is Nop) {
            let g = util::resolver(map, 1);
            lemma_renamed(inst.kind, g);
            let kind = util::map_kind(inst.kind, g);
            let ops = edit::operands(inst.kind);
            assert(semantics::ignores(kind, known)) by {
                assert forall|k: int| 0 <= k < edit::operands(kind).len() implies !known.contains(
                    #[trigger] edit::operands(kind)[k],
                ) by {
                    reveal_with_fuel(util::resolve, 2);
                    assert(edit::operands(kind)[k] == g(ops[k]));
                    assert(!known.contains(ops[k]));
                    if map.contains_key(ops[k]) {
                        assert(map[ops[k]].0 >= nv);
                    }
                }
            }
        }
    }
}

/// What one loop defines in its body.
pub open spec fn body_values(f: FuncView, c: Candidate) -> Set<ValueId> {
    Set::new(
        |w: ValueId| is_defined_before(body_of(f, c), body_of(f, c).len() as int, w),
    )
}

/// Another loop is as it was.
#[verifier::rlimit(80)]
proof fn lemma_other_loop(
    f: FuncView,
    g: FuncView,
    c: Candidate,
    t: Details,
    y: Layout,
    o: Candidate,
    u: Details,
)
    requires
        verify::valid(f),
        g.wf(),
        has_room(f, c),
        can_unroll(f, c, t),
        is_unrolled(f, g, c, t, y),
        can_unroll(f, o, u),
        o.header != c.header,
    ensures
        can_unroll(g, o, u),
        g.block(o.body) == f.block(o.body),
{
    let nb = f.blocks.len() as int;
    assert(g.blocks[o.header.0 as int] == f.blocks[o.header.0 as int]);
    assert(g.blocks[o.body.0 as int] == f.blocks[o.body.0 as int]);
    assert(g.blocks[o.preheader.0 as int] == f.blocks[o.preheader.0 as int]);
    assert(g.block(o.header) == f.block(o.header) && g.block(o.body) == f.block(o.body));
    assert(g.block(o.preheader) == f.block(o.preheader));
    assert forall|w: ValueId| f.has_value(w) implies #[trigger] g.value(w) == f.value(w) by {
        assert(g.values[w.0 as int] == f.values[w.0 as int]);
    }
    assert forall|q: BlockId, b: BlockId|
        g.has_block(q) && #[trigger] cfg::edge(g, q, b) && (b == o.header || b == o.body)
        implies f.has_block(q) && cfg::edge(f, q, b) by {
        threading_laws::lemma_succ(g.terminator(q), b);
        if q.0 < nb {
            if q != c.preheader && q != c.header {
                assert(g.blocks[q.0 as int] == f.blocks[q.0 as int]);
            }
            threading_laws::lemma_succ(f.terminator(q), b);
        } else {
            assert(q == new_header(f) || q == new_body(f));
        }
    }
    let body = body_of(f, o);
    let nv = f.values.len();
    assert(is_orderly(body, o.counter, u.condition, g.values.len())) by {
        assert forall|i: int| 0 <= i < body.len() implies reads_known(
            #[trigger] body[i],
            |v: ValueId|
                v != u.condition && (v == o.counter || is_defined_before(body, i, v)
                    || !is_defined_before(body, body.len() as int, v)),
            g.values.len(),
        ) by {
            let known = |v: ValueId|
                v != u.condition && (v == o.counter || is_defined_before(body, i, v)
                    || !is_defined_before(body, body.len() as int, v));
            assert(reads_known(body[i], known, nv));
        }
    }
    lemma_step_kept(f, g, body[u.next].kind, o.counter);
    assert(is_counted_loop(g, o, u));
    // What nothing reads.
    let known = body_values(f, o);
    meaning_laws::lemma_results_are_computed(f);
    assert forall|w: ValueId| #[trigger] known.contains(w) implies w.0 < nv && f.value(w).kind
        is Inst by {
        let j = choose|j: int| 0 <= j < body.len() && (#[trigger] body[j]).result == Some(w);
        assert(body[j].result == Some(w));
        assert(f.block(o.body).insts[j].result == Some(w));
    }
    assert(!known.contains(c.bound)) by {
        let head = f.block(c.header).insts;
        assert(c.header != o.body);
        assert(f.has_inst(c.header, t.compare) && f.inst(c.header, t.compare) == head[t.compare]);
        assert(semantics::ignores(head[t.compare].kind, unread(f, o)));
        assert(edit::operands(head[t.compare].kind)[1] == c.bound);
    }
    assert(c.body != o.header && c.body != o.body);
    let own = body_of(f, c);
    assert forall|i: int| 0 <= i < own.len() implies !((#[trigger] own[i]).kind is Phi)
        && semantics::ignores(own[i].kind, known) by {
        assert(f.has_inst(c.body, i) && f.inst(c.body, i) == own[i]);
        assert(semantics::ignores(own[i].kind, unread(f, o)));
        lemma_ignores_less(own[i].kind, unread(f, o), known);
    }
    let start = Map::empty().insert(c.counter, v(y.n + 2));
    lemma_copies_read(own, y.n + 4, start, own.len() as int, nv, known);
    let (l1, m1, id1) = first_round(f, c, y);
    let mid = middle(f, c, y);
    assert(m1.contains_key(c.next)) by {
        lemma_has_results(own, y.n + 4, start, own.len() as int, t.next);
    }
    let again = Map::empty().insert(c.counter, mid);
    lemma_copies_read(own, id1, again, own.len() as int, nv, known);
    let (l2, m2, id2) = second_round(f, c, y);
    assert(m2.contains_key(c.next)) by {
        lemma_has_results(own, id1, again, own.len() as int, t.next);
    }
    assert forall|b: BlockId, i: int|
        g.has_inst(b, i) && b != o.header && b != o.body implies semantics::ignores(
        (#[trigger] g.inst(b, i)).kind,
        unread(g, o),
    ) by {
        query::lemma_inst_wf(g, b, i);
        let kind = g.inst(b, i).kind;
        assert(semantics::ignores(kind, known)) by {
            lemma_new_reads(f, g, c, t, y, known, b, i);
            if b.0 < nb {
                lemma_old_reads(f, o, known);
            }
        }
        let ops = edit::operands(kind);
        assert forall|k: int| 0 <= k < ops.len() implies !unread(g, o).contains(
            #[trigger] ops[k],
        ) by {
            lemma_operand_exists(g, kind, k);
            assert(!known.contains(ops[k]));
        }
    }
    assert forall|b: BlockId| g.has_block(b) && b != o.header && b != o.body implies end_ignores(
        #[trigger] g.terminator(b),
        unread(g, o),
    ) by {
        query::lemma_terminator_wf(g, b);
        if b.0 < nb && b != c.preheader {
            if b != c.header {
                assert(g.blocks[b.0 as int] == f.blocks[b.0 as int]);
            }
            assert(end_ignores(f.terminator(b), unread(f, o)));
        }
    }
}

/// The set is ignored where a larger one is.
proof fn lemma_ignores_less(kind: KindView, large: Set<ValueId>, small: Set<ValueId>)
    requires
        semantics::ignores(kind, large),
        forall|w: ValueId| #[trigger] small.contains(w) ==> large.contains(w),
    ensures
        semantics::ignores(kind, small),
{
    let ops = edit::operands(kind);
    assert forall|k: int| 0 <= k < ops.len() implies !small.contains(#[trigger] ops[k]) by {
        assert(!large.contains(ops[k]));
    }
}

proof fn lemma_step_kept(f: FuncView, g: FuncView, kind: KindView, phi: ValueId)
    requires
        loops::step_of(f, kind, phi) == Some(1i32),
        forall|w: ValueId| f.has_value(w) ==> #[trigger] g.value(w) == f.value(w),
        g.values.len() >= f.values.len(),
    ensures
        loops::step_of(g, kind, phi) == Some(1i32),
{
    assert forall|w: ValueId| util::const_i32_of(f, w) is Some implies #[trigger]
    util::const_i32_of(g, w) == util::const_i32_of(f, w) by {
        assert(g.value(w) == f.value(w));
    }
}

/// Results are mapped.
proof fn lemma_has_results(
    insts: Seq<InstView>,
    first: int,
    start: Map<ValueId, ValueId>,
    n: int,
    j: int,
)
    requires
        0 <= j < n <= insts.len(),
        insts[j].result is Some,
        !(insts[j].kind is Nop),
    ensures
        copies(insts, first, start, n).1.contains_key(insts[j].result->Some_0),
    decreases n,
{
    if j < n - 1 {
        lemma_has_results(insts, first, start, n - 1, j);
    }
}

/// Old instructions outside of the loop ignore what its body defines.
proof fn lemma_old_reads(f: FuncView, o: Candidate, known: Set<ValueId>)
    requires
        is_unread(f, o),
        known == body_values(f, o),
    ensures
        forall|b: BlockId, i: int|
            f.has_inst(b, i) && b != o.header && b != o.body ==> semantics::ignores(
                (#[trigger] f.inst(b, i)).kind,
                known,
            ),
{
    assert forall|b: BlockId, i: int|
        f.has_inst(b, i) && b != o.header && b != o.body implies semantics::ignores(
        (#[trigger] f.inst(b, i)).kind,
        known,
    ) by {
        lemma_ignores_less(f.inst(b, i).kind, unread(f, o), known);
    }
}

/// New instructions ignore what only another loop reads.
#[verifier::rlimit(60)]
proof fn lemma_new_reads(
    f: FuncView,
    g: FuncView,
    c: Candidate,
    t: Details,
    y: Layout,
    known: Set<ValueId>,
    b: BlockId,
    i: int,
)
    requires
        has_room(f, c),
        is_counted_loop(f, c, t),
        is_unrolled(f, g, c, t, y),
        g.has_inst(b, i),
        forall|w: ValueId| #[trigger] known.contains(w) ==> w.0 < f.values.len() && f.value(w).kind
            is Inst,
        !known.contains(c.bound),
        first_round(f, c, y).1.contains_key(c.next),
        second_round(f, c, y).1.contains_key(c.next),
        last(f, c, y).0 >= f.values.len(),
        forall|k: int|
            0 <= k < first_round(f, c, y).0.len() ==> semantics::ignores(
                (#[trigger] first_round(f, c, y).0[k]).kind,
                known,
            ),
        forall|k: int|
            0 <= k < second_round(f, c, y).0.len() ==> semantics::ignores(
                (#[trigger] second_round(f, c, y).0[k]).kind,
                known,
            ),
    ensures
        semantics::ignores(g.inst(b, i).kind, known) || (f.has_inst(b, i) && (semantics::ignores(
            f.inst(b, i).kind,
            known,
        ) ==> semantics::ignores(g.inst(b, i).kind, known))),
{
    let nb = f.blocks.len() as int;
    let kind = g.inst(b, i).kind;
    let ops = edit::operands(kind);
    assert(y.one.0 < f.values.len() ==> !known.contains(y.one)) by {
        if y.one.0 < f.values.len() {
            assert(g.values[y.one.0 as int] == f.values[y.one.0 as int]);
        }
    }
    assert(y.two.0 < f.values.len() ==> !known.contains(y.two)) by {
        if y.two.0 < f.values.len() {
            assert(g.values[y.two.0 as int] == f.values[y.two.0 as int]);
        }
    }
    if b == new_header(f) {
        if i == 0 {
            assert forall|k: int| 0 <= k < ops.len() implies !known.contains(#[trigger] ops[k]) by {
                let list = seq![(c.preheader, c.initial), (new_body(f), last(f, c, y))];
                assert(ops[k] == list[k].1);
            }
        }
    } else if b == new_body(f) {
        let l1 = first_round(f, c, y).0;
        let l2 = second_round(f, c, y).0;
        if i < l1.len() {
            assert(g.inst(b, i) == l1[i]);
        } else {
            assert(g.inst(b, i) == l2[i - l1.len()]);
        }
    } else if b == c.preheader {
        let n = f.block(b).insts.len();
        if i < n {
            assert(g.inst(b, i) == f.inst(b, i));
        }
    } else if b == c.header {
        if i == t.phi {
            let phi = f.block(b).insts[i];
            let list = phi.kind->Phi_incomings;
            assert(f.inst(b, i) == phi);
            let all = list.push((new_header(f), v(y.n + 2)));
            if semantics::ignores(phi.kind, known) {
                assert forall|k: int| 0 <= k < ops.len() implies !known.contains(
                    #[trigger] ops[k],
                ) by {
                    assert(ops[k] == all[k].1);
                    if k < list.len() {
                        assert(edit::operands(phi.kind)[k] == list[k].1);
                    }
                }
            }
        } else {
            assert(g.inst(b, i) == f.inst(b, i));
        }
    } else {
        assert(b.0 < nb);
        assert(g.blocks[b.0 as int] == f.blocks[b.0 as int]);
        assert(g.inst(b, i) == f.inst(b, i));
    }
}

/// A list without duplicates stays one when it is filtered.
pub proof fn lemma_filter_distinct(list: Seq<BlockId>, pred: spec_fn(BlockId) -> bool)
    requires
        list.no_duplicates(),
    ensures
        list.filter(pred).no_duplicates(),
    decreases list.len(),
{
    reveal(Seq::filter);
    if list.len() > 0 {
        let less = list.drop_last();
        lemma_filter_distinct(less, pred);
        loops::lemma_filtered(less, pred);
        let sub = less.filter(pred);
        if pred(list.last()) {
            assert(list.filter(pred) == sub.push(list.last()));
            assert forall|i: int| 0 <= i < sub.len() implies sub[i] != list.last() by {
                assert(less.contains(sub[i]));
                let k = choose|k: int| 0 <= k < less.len() && less[k] == sub[i];
                assert(list[k] == sub[i]);
            }
        }
    }
}

/// Loops have different headers.
proof fn lemma_headers_differ(f: FuncView, i: int, j: int)
    requires
        f.blocks.len() <= usize::MAX,
        0 <= i < j < loops::loops_of(f).len(),
    ensures
        loops::loops_of(f)[i].header != loops::loops_of(f)[j].header,
{
    let ids = loops::all_ids(f.blocks.len());
    assert(ids.no_duplicates());
    lemma_filter_distinct(ids, loops::has_back_edge(f));
    let heads = loops::loop_headers(f);
    assert(heads[i] != heads[j]);
}

/// The candidates are those of loops of the list, each of another one.
proof fn lemma_candidates(f: FuncView, n: int)
    requires
        verify::valid(f),
        fits(f),
        entered_once(f),
        nops_give_nothing(f),
        0 <= n <= loops::loops_of(f).len(),
    ensures
        forall|k: int|
            0 <= k < simple_loop_unroll::candidates_below(f, loops::loops_of(f), n).len() ==> {
                let c = #[trigger] simple_loop_unroll::candidates_below(
                    f,
                    loops::loops_of(f),
                    n,
                )[k];
                &&& has_loop(f, c)
                &&& exists|j: int|
                    0 <= j < n && (#[trigger] loops::loops_of(f)[j]).header == c.header
            },
        forall|i: int, k: int|
            0 <= i < k < simple_loop_unroll::candidates_below(f, loops::loops_of(f), n).len() ==> (
            #[trigger] simple_loop_unroll::candidates_below(f, loops::loops_of(f), n)[i]).header
                != (#[trigger] simple_loop_unroll::candidates_below(
                f,
                loops::loops_of(f),
                n,
            )[k]).header,
    decreases n,
{
    let list = loops::loops_of(f);
    if n > 0 {
        lemma_candidates(f, n - 1);
        let before = simple_loop_unroll::candidates_below(f, list, n - 1);
        let all = simple_loop_unroll::candidates_below(f, list, n);
        if let Some(c) = simple_loop_unroll::candidate_at(f, list[n - 1]) {
            loops::lemma_listed_loop(f, n - 1);
            let t = lemma_counted_loop(f, list[n - 1], c);
            lemma_result(f, c.header, t.phi, c.counter);
            lemma_unread(f, c);
            assert(can_unroll(f, c, t));
            assert forall|i: int, k: int| 0 <= i < k < all.len() implies (#[trigger] all[i]).header
                != (#[trigger] all[k]).header by {
                assert(all[i] == before[i]);
                if k < before.len() {
                    assert(all[k] == before[k]);
                } else {
                    let j = choose|j: int|
                        0 <= j < n - 1 && (#[trigger] list[j]).header == before[i].header;
                    lemma_headers_differ(f, j, n - 1);
                }
            }
            assert forall|k: int| 0 <= k < all.len() implies ({
                let c = #[trigger] all[k];
                &&& has_loop(f, c)
                &&& exists|j: int| 0 <= j < n && (#[trigger] list[j]).header == c.header
            }) by {
                if k < before.len() {
                    assert(all[k] == before[k]);
                    let j = choose|j: int|
                        0 <= j < n - 1 && (#[trigger] list[j]).header == before[k].header;
                    assert(list[j].header == all[k].header);
                } else {
                    assert(list[n - 1].header == all[k].header);
                }
            }
        }
    }
}

/// Every function on the way is valid and has room.
pub open spec fn stays_valid(f: FuncView) -> bool {
    let list = simple_loop_unroll::candidates_of(f);
    forall|k: int|
        0 <= k < list.len() ==> {
            let g = (#[trigger] simple_loop_unroll::unrolled_below(f, list, k)).0;
            &&& verify::valid(g)
            &&& has_room(g, list[k])
        }
}

proof fn lemma_all<D, M>(
    f: FuncView,
    n: int,
    m: Meaning<D, M>,
    number: spec_fn(D) -> i32,
    args: Map<ValueId, D>,
    memory: M,
    out: State<D, M>,
)
    requires
        verify::valid(f),
        fits(f),
        entered_once(f),
        nops_give_nothing(f),
        stays_valid(f),
        is_arithmetic(m, number),
        0 <= n <= simple_loop_unroll::candidates_of(f).len(),
        verify::valid(
            simple_loop_unroll::unrolled_below(f, simple_loop_unroll::candidates_of(f), n).0,
        ),
    ensures
        ({
            let list = simple_loop_unroll::candidates_of(f);
            let g = simple_loop_unroll::unrolled_below(f, list, n).0;
            &&& semantics::yields(g, m, args, memory, out) == semantics::yields(
                f,
                m,
                args,
                memory,
                out,
            )
            &&& g.values.len() >= f.values.len()
            &&& forall|w: ValueId| f.has_value(w) ==> #[trigger] g.value(w) == f.value(w)
            &&& forall|k: int|
                n <= k < list.len() ==> {
                    &&& has_loop(g, #[trigger] list[k])
                    &&& g.block(list[k].body) == f.block(list[k].body)
                }
        }),
    decreases n,
{
    let list = simple_loop_unroll::candidates_of(f);
    lemma_candidates(f, loops::loops_of(f).len() as int);
    if n > 0 {
        let c = list[n - 1];
        let g = simple_loop_unroll::unrolled_below(f, list, n - 1).0;
        assert(verify::valid(g) && has_room(g, c));
        lemma_all(f, n - 1, m, number, args, memory, out);
        let h = simple_loop_unroll::unrolled_below(f, list, n).0;
        if h != g {
            assert(has_loop(g, list[n - 1]) && has_loop(f, list[n - 1]));
            let t = choose|t: Details| can_unroll(g, c, t);
            let body = body_of(f, c);
            assert forall|i: int| 0 <= i < body.len() implies ((#[trigger] body[i]).result
                matches Some(r) ==> g.value(r) == f.value(r)) by {
                if let Some(r) = body[i].result {
                    let u = choose|u: Details| can_unroll(f, c, u);
                    assert(r.0 < f.values.len());
                }
            }
            lemma_same_unrolled(f, g, c);
            assert(h == simple_loop_unroll::unrolled(g, g, c));
            let y = lemma_unrolled(g, c, t);
            lemma_unrolling(g, c, t, m, number, args, memory, out);
            assert forall|w: ValueId| f.has_value(w) implies #[trigger] h.value(w) == f.value(w) by {
                assert(h.values[w.0 as int] == g.values[w.0 as int]);
                assert(g.value(w) == f.value(w));
            }
            assert forall|k: int| n <= k < list.len() implies {
                &&& has_loop(h, #[trigger] list[k])
                &&& h.block(list[k].body) == f.block(list[k].body)
            } by {
                let o = list[k];
                assert(has_loop(g, list[k]));
                let u = choose|u: Details| can_unroll(g, o, u);
                assert(list[n - 1].header != list[k].header);
                lemma_other_loop(g, h, c, t, y, o, u);
                assert(can_unroll(h, o, u));
            }
        }
    }
}

/// The pass keeps what every call returns, where additions, subtractions and
/// comparisons of integers are what they are called, as long as every function on
/// the way is valid and has room for the copies.
pub proof fn unrolling_keeps_the_meaning<D, M>(
    f: FuncView,
    m: Meaning<D, M>,
    number: spec_fn(D) -> i32,
    args: Map<ValueId, D>,
    memory: M,
    out: State<D, M>,
)
    requires
        verify::valid(f),
        fits(f),
        entered_once(f),
        nops_give_nothing(f),
        stays_valid(f),
        is_arithmetic(m, number),
    ensures
        semantics::yields(simple_loop_unroll::unrolled_function(f), m, args, memory, out)
            == semantics::yields(f, m, args, memory, out),
{
    let list = simple_loop_unroll::candidates_of(f);
    let n = list.len() as int;
    if verify::valid(simple_loop_unroll::unrolled_below(f, list, n).0) {
        lemma_all(f, n, m, number, args, memory, out);
    }
}

} // verus!
