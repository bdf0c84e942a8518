//! What stands for parameters and for pointers.
use vstd::prelude::*;

use crate::emit;
use crate::ir::{Const, FuncView, KindView, ValueId, ValueKindView};
use crate::pass::memset_laws::element;
use crate::pass::pointer_recurrence_coalesce::apply;
use crate::pass::pointer_recurrence_coalesce::pairs;
use crate::pass::pointer_recurrence_coalesce::pairs::Plan;
use crate::pass::recursive_inline::splice;
use crate::semantics;
use crate::semantics::Meaning;
use crate::ssa;
use crate::util;

verus! {

/// In the copy of a callee each parameter stands for the argument at its place.
pub proof fn parameters_stand_for_their_arguments(
    params: Seq<ValueId>,
    args: Seq<ValueId>,
    n: int,
    i: int,
)
    requires
        params.no_duplicates(),
        0 <= i < n <= params.len(),
        n <= args.len(),
    ensures
        splice::bound(params, args, n).contains_key(params[i]),
        splice::bound(params, args, n)[params[i]] == args[i],
    decreases n,
{
    if i < n - 1 {
        parameters_stand_for_their_arguments(params, args, n - 1, i);
        assert(params[i] != params[n - 1]);
    }
}

proof fn lemma_found(f: FuncView, c: Const, from: int)
    requires
        0 <= from,
        f.values.len() <= usize::MAX,
    ensures
        util::find_const(f, c, from) matches Some(v) ==> f.has_value(v) && f.value(v).kind
            == ValueKindView::Const(c),
    decreases f.values.len() - from,
{
    if from < f.values.len() {
        lemma_found(f, c, from + 1);
    }
}

/// What stands for the secondary pointer of a plan lies so many elements behind the
/// primary one as the plan says, whatever the distance: it is the primary pointer
/// where the distance is zero, and else the instruction that was added to the header
/// computes that address.
pub proof fn stand_ins_lie_at_their_distance<D, M>(
    f: FuncView,
    m: Meaning<D, M>,
    p: Plan,
    added: nat,
    e: Map<ValueId, D>,
    x: M,
)
    requires
        pairs::plan_in(f, p),
        f.values.len() + 2 <= usize::MAX,
        forall|d: D, z: M| #[trigger] element(m, d, m.integer(0), z) == d,
        forall|v: ValueId|
            apply::pointer_added(f, p, added).0.has_value(v) ==> (
            #[trigger] apply::pointer_added(f, p, added).0.value(v).kind matches
                ValueKindView::Const(c) ==> e[v] == (m.constant)(c)),
    ensures
        ({
            let (h, v) = apply::pointer_added(f, p, added);
            let at = apply::place_in(f.block(p.header).insts, added);
            let list = if p.distance == 0 {
                Seq::empty()
            } else {
                seq![h.inst(p.header, at)]
            };
            &&& p.distance != 0 ==> !f.has_value(v)
            &&& semantics::executed(m, list, list.len() as int, e, x).0[v] == element(
                m,
                e[p.primary],
                m.integer(p.distance),
                x,
            )
        }),
{
    let (h, v) = apply::pointer_added(f, p, added);
    let c = Const::Int(p.distance);
    if p.distance != 0 {
        reveal(emit::inserted);
        lemma_found(f, c, 0);
        let index = util::const_value(f, c);
        let f1 = util::with_const(f, c);
        let at = apply::place_in(f.block(p.header).insts, added);
        assert(f1.block(p.header) == f.block(p.header));
        apply_place(f, p, added);
        let inst = h.inst(p.header, at);
        let kind = KindView::Gep { base: p.primary, indices: seq![index] };
        assert(inst.kind == kind && inst.result == Some(v));
        assert(f1.value(index).kind == ValueKindView::Const(c));
        assert(h.has_value(index) && h.value(index).kind == ValueKindView::Const(c));
        assert(e[index] == m.integer(p.distance));
        let list = seq![inst];
        assert(semantics::executed(m, list, 0, e, x) == (e, x));
        assert(list[0] == inst);
        assert(ssa::data_of(kind, e) =~= seq![e[p.primary], m.integer(p.distance)]);
        let unit = KindView::Gep { base: ValueId(0), indices: seq![ValueId(0)] };
        assert(semantics::shape(kind)->Gep_indices =~= seq![ValueId(0)]);
        assert(semantics::shape(unit)->Gep_indices =~= seq![ValueId(0)]);
    } else {
        assert(semantics::executed(m, Seq::empty(), 0, e, x) == (e, x));
    }
}

/// The new pointer is put inside the block.
proof fn apply_place(f: FuncView, p: Plan, added: nat)
    ensures
        0 <= apply::place_in(f.block(p.header).insts, added) <= f.block(p.header).insts.len(),
{
    lemma_plain_place(f.block(p.header).insts, 0);
}

proof fn lemma_plain_place(insts: Seq<crate::ir::InstView>, k: int)
    requires
        0 <= k <= insts.len(),
    ensures
        k <= apply::first_plain(insts, k) <= insts.len(),
    decreases insts.len() - k,
{
    if k < insts.len() && (insts[k].kind is Nop || insts[k].kind is Phi) {
        lemma_plain_place(insts, k + 1);
    }
}

} // verus!
