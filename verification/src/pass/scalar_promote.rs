//! Promotion of scalar stack slots to values.
use vstd::prelude::*;

use crate::cfg;
use crate::cfg::{ControlFlowGraph, Dominators};
use crate::edit;
use crate::edit::{inst_operands, terminator_operands};
use crate::ir;
use crate::ir::{
    BlockId, Const, FuncView, Function, Inst, InstKind, InstView, KindView, Module, ModuleView,
    Type, ValueId, ValueKind, ValueKindView,
};
use crate::loops;
use crate::query;
use crate::query::{dominates_in, preds_of};
use crate::util;
use crate::util::{defining_inst, first_incoming, rewrite_function_uses, ValueMap};
use crate::verify;

verus! {

pub const MAX_PROMOTION_BLOCKS: usize = 512;

pub const MAX_PROMOTION_VALUES: usize = 4096;

// ---------------------------------------------------------------------------
// The dominator tree and dominance frontiers
// ---------------------------------------------------------------------------

pub open spec fn strictly_dominates(f: FuncView, a: BlockId, b: BlockId) -> bool {
    a != b && cfg::dominates(f, a, b)
}

/// `d` is no block between `b` and `c` in the dominator tree.
pub open spec fn not_between(f: FuncView, b: BlockId, d: BlockId, c: BlockId) -> bool {
    strictly_dominates(f, d, c) ==> cfg::dominates(f, d, b)
}

/// `b` is the immediate dominator of `c`.
pub open spec fn is_child(f: FuncView, b: BlockId, c: BlockId) -> bool {
    &&& strictly_dominates(f, b, c)
    &&& forall|d: BlockId| f.has_block(d) ==> #[trigger] not_between(f, b, d, c)
}

pub open spec fn child_of(f: FuncView, b: BlockId) -> spec_fn(BlockId) -> bool {
    |c: BlockId| is_child(f, b, c)
}

/// The blocks that `b` dominates immediately, in ascending order.
pub open spec fn children(f: FuncView, b: BlockId) -> Seq<BlockId> {
    loops::all_ids(f.blocks.len()).filter(child_of(f, b))
}

/// The dominance of `b` ends at `y`: it dominates a predecessor of `y`, but
/// not strictly `y` itself.
pub open spec fn in_frontier(f: FuncView, b: BlockId, y: BlockId) -> bool {
    !strictly_dominates(f, b, y) && exists|k: int|
        0 <= k < cfg::preds(f, y).len() && cfg::dominates(f, b, #[trigger] cfg::preds(f, y)[k])
}

pub open spec fn frontier_of(f: FuncView, b: BlockId) -> spec_fn(BlockId) -> bool {
    |y: BlockId| in_frontier(f, b, y)
}

/// The dominance frontier of `b`, in ascending order.
pub open spec fn frontier(f: FuncView, b: BlockId) -> Seq<BlockId> {
    loops::all_ids(f.blocks.len()).filter(frontier_of(f, b))
}

/// Collects the marked ids.
fn collect_marked(marks: &Vec<bool>, Ghost(pred): Ghost<spec_fn(BlockId) -> bool>) -> (r: Vec<
    BlockId,
>)
    requires
        forall|b: int|
            0 <= b < marks.len() ==> (#[trigger] marks@[b] <==> pred(BlockId(b as usize))),
    ensures
        r@ == loops::all_ids(marks.len() as nat).filter(pred),
{
    let ghost all = loops::all_ids(marks.len() as nat);
    let mut r: Vec<BlockId> = Vec::new();
    let n = marks.len();
    proof {
        reveal(Seq::filter);
        assert(all.take(0).filter(pred) =~= Seq::<BlockId>::empty());
    }
    for b in 0..n
        invariant
            n == marks.len(),
            all == loops::all_ids(n as nat),
            forall|x: int|
                0 <= x < marks.len() ==> (#[trigger] marks@[x] <==> pred(BlockId(x as usize))),
            r@ == all.take(b as int).filter(pred),
    {
        proof {
            reveal(Seq::filter);
            assert(all.take(b + 1).drop_last() =~= all.take(b as int));
            assert(all.take(b + 1).last() == BlockId(b));
        }
        if marks[b] {
            r.push(BlockId(b));
        }
    }
    assert(all.take(n as int) =~= all);
    r
}

#[verifier::loop_isolation(false)]
fn find_children(func: &Function, dom: &Dominators, b: BlockId) -> (r: Vec<BlockId>)
    requires
        func@.wf(),
        dom.of(func@),
        func@.has_block(b),
    ensures
        r@ == children(func@, b),
{
    let ghost f = func@;
    let n = func.blocks.len();
    let mut marks: Vec<bool> = Vec::new();
    for x in 0..n
        invariant
            marks.len() == x,
            forall|j: int|
                0 <= j < x ==> (#[trigger] marks@[j] <==> child_of(f, b)(BlockId(j as usize))),
    {
        let c = BlockId(x);
        let mut found = b != c && dominates_in(func, dom, b, c);
        if found {
            for y in 0..n
                invariant
                    found == forall|d: BlockId| d.0 < y ==> #[trigger] not_between(f, b, d, c),
            {
                let d = BlockId(y);
                if d != c && dominates_in(func, dom, d, c) && !dominates_in(func, dom, d, b) {
                    assert(!not_between(f, b, d, c));
                    found = false;
                }
            }
        }
        marks.push(found);
    }
    collect_marked(&marks, Ghost(child_of(f, b)))
}

#[verifier::loop_isolation(false)]
fn find_frontier(func: &Function, graph: &ControlFlowGraph, dom: &Dominators, b: BlockId) -> (r: Vec<
    BlockId,
>)
    requires
        func@.wf(),
        graph.of(func@),
        dom.of(func@),
        func@.has_block(b),
    ensures
        r@ == frontier(func@, b),
        forall|k: int| 0 <= k < r.len() ==> func@.has_block(#[trigger] r@[k]),
{
    let ghost f = func@;
    let n = func.blocks.len();
    let mut marks: Vec<bool> = Vec::new();
    for x in 0..n
        invariant
            marks.len() == x,
            forall|j: int|
                0 <= j < x ==> (#[trigger] marks@[j] <==> frontier_of(f, b)(BlockId(j as usize))),
    {
        let y = BlockId(x);
        let preds = preds_of(func, graph, y);
        proof {
            query::lemma_preds_wf(f, y);
        }
        let m = preds.len();
        let mut found = false;
        for k in 0..m
            invariant
                found == exists|j: int|
                    0 <= j < k && cfg::dominates(f, b, #[trigger] cfg::preds(f, y)[j]),
        {
            assert(f.has_block(cfg::preds(f, y)[k as int]));
            if dominates_in(func, dom, b, preds[k]) {
                assert(cfg::dominates(f, b, cfg::preds(f, y)[k as int]));
                found = true;
            }
        }
        if b != y && dominates_in(func, dom, b, y) {
            found = false;
        }
        marks.push(found);
    }
    let r = collect_marked(&marks, Ghost(frontier_of(f, b)));
    proof {
        loops::lemma_filtered(loops::all_ids(f.blocks.len()), frontier_of(f, b));
    }
    r
}

// ---------------------------------------------------------------------------
// Which slots can be promoted
// ---------------------------------------------------------------------------

/// The type of the stack slot that `v` is the address of.
pub open spec fn slot_type(f: FuncView, v: ValueId) -> Option<Type> {
    match util::def_kind(f, v) {
        Some(KindView::Alloca { ty }) => Some(ty),
        _ => None,
    }
}

/// A reachable load from the slot.
pub open spec fn is_load(f: FuncView, a: ValueId, b: BlockId, i: int) -> bool {
    f.has_inst(b, i) && cfg::reachable(f, b) && f.inst(b, i).kind == (KindView::Load { ptr: a })
}

pub open spec fn stores_to(kind: KindView, a: ValueId) -> bool {
    match kind {
        KindView::Store { ptr, .. } => ptr == a,
        _ => false,
    }
}

/// A reachable store to the slot.
pub open spec fn is_store(f: FuncView, a: ValueId, b: BlockId, i: int) -> bool {
    f.has_inst(b, i) && cfg::reachable(f, b) && stores_to(f.inst(b, i).kind, a)
}

/// The instruction does not let the address of the slot escape.
pub open spec fn keeps_address(f: FuncView, a: ValueId, b: BlockId, i: int) -> bool {
    let kind = f.inst(b, i).kind;
    if cfg::reachable(f, b) && kind == (KindView::Load { ptr: a }) {
        true
    } else if cfg::reachable(f, b) && stores_to(kind, a) {
        kind->Store_value != a
    } else {
        !edit::operands(kind).contains(a)
    }
}

/// No instruction or terminator lets the address of the slot escape.
pub open spec fn never_escapes(f: FuncView, a: ValueId) -> bool {
    &&& forall|b: BlockId, i: int| f.has_inst(b, i) ==> #[trigger] keeps_address(f, a, b, i)
    &&& forall|b: int|
        0 <= b < f.blocks.len() ==> !edit::terminator_reads(
            (#[trigger] f.blocks[b]).terminator,
        ).contains(a)
}

/// The store comes before the place on every path.
pub open spec fn store_precedes(
    f: FuncView,
    a: ValueId,
    sb: BlockId,
    si: int,
    b: BlockId,
    i: int,
) -> bool {
    is_store(f, a, sb, si) && ((sb == b && si < i) || (sb != b && cfg::dominates(f, sb, b)))
}

/// Some store comes before the place on every path.
pub open spec fn stored_before(f: FuncView, a: ValueId, b: BlockId, i: int) -> bool {
    exists|sb: BlockId, si: int| #[trigger] store_precedes(f, a, sb, si, b, i)
}

/// The slot is a scalar whose address does not escape, and every load sees a
/// store.
pub open spec fn promotable(f: FuncView, a: ValueId) -> bool {
    &&& slot_type(f, a) is Some && !(slot_type(f, a)->0 is Array)
    &&& never_escapes(f, a)
    &&& exists|b: BlockId, i: int| #[trigger] is_load(f, a, b, i)
    &&& exists|b: BlockId, i: int| #[trigger] is_store(f, a, b, i)
    &&& forall|b: BlockId, i: int| #[trigger] is_load(f, a, b, i) ==> stored_before(f, a, b, i)
}

/// The promotable slots among the first `n` values.
pub open spec fn candidates_below(f: FuncView, n: int) -> Seq<ValueId>
    decreases n,
{
    if n <= 0 {
        Seq::empty()
    } else if promotable(f, ValueId((n - 1) as usize)) {
        candidates_below(f, n - 1).push(ValueId((n - 1) as usize))
    } else {
        candidates_below(f, n - 1)
    }
}

fn reads(list: &Vec<ValueId>, v: ValueId) -> (r: bool)
    ensures
        r == list@.contains(v),
{
    let n = list.len();
    for k in 0..n
        invariant
            n == list.len(),
            forall|j: int| 0 <= j < k ==> #[trigger] list@[j] != v,
    {
        if list[k] == v {
            assert(list@[k as int] == v);
            return true;
        }
    }
    false
}

/// The places of the loads and stores of a slot.
pub struct Accesses {
    pub loads: Vec<(BlockId, usize)>,
    pub stores: Vec<(BlockId, usize)>,
}

pub open spec fn lists(places: Seq<(BlockId, usize)>, b: BlockId, i: int) -> bool {
    exists|k: int| 0 <= k < places.len() && (#[trigger] places[k]).0 == b && places[k].1 == i
}

impl Accesses {
    /// The lists hold exactly the loads and stores of the blocks before `n`,
    /// and those before position `m` of block `n`.
    pub open spec fn upto(self, f: FuncView, a: ValueId, n: int, m: int) -> bool {
        &&& forall|k: int|
            0 <= k < self.loads.len() ==> is_load(
                f,
                a,
                (#[trigger] self.loads@[k]).0,
                self.loads@[k].1 as int,
            )
        &&& forall|k: int|
            0 <= k < self.stores.len() ==> is_store(
                f,
                a,
                (#[trigger] self.stores@[k]).0,
                self.stores@[k].1 as int,
            )
        &&& forall|b: BlockId, i: int|
            (b.0 < n || (b.0 == n && i < m)) && #[trigger] is_load(f, a, b, i) ==> lists(
                self.loads@,
                b,
                i,
            )
        &&& forall|b: BlockId, i: int|
            (b.0 < n || (b.0 == n && i < m)) && #[trigger] is_store(f, a, b, i) ==> lists(
                self.stores@,
                b,
                i,
            )
    }
}

proof fn lemma_lists_push(places: Seq<(BlockId, usize)>, p: (BlockId, usize))
    ensures
        forall|b: BlockId, i: int| lists(places, b, i) ==> #[trigger] lists(places.push(p), b, i),
        lists(places.push(p), p.0, p.1 as int),
{
    assert forall|b: BlockId, i: int| lists(places, b, i) implies #[trigger] lists(
        places.push(p),
        b,
        i,
    ) by {
        let k = choose|k: int|
            0 <= k < places.len() && (#[trigger] places[k]).0 == b && places[k].1 == i;
        assert(places.push(p)[k] == places[k]);
    }
    assert(places.push(p)[places.len() as int] == p);
}

/// The loads and stores of a slot, if its address does not escape.
#[verifier::loop_isolation(false)]
fn collect_candidate_info(func: &Function, dom: &Dominators, a: ValueId) -> (r: Option<Accesses>)
    requires
        func@.wf(),
        dom.of(func@),
    ensures
        match r {
            Some(acc) => never_escapes(func@, a) && acc.upto(
                func@,
                a,
                func@.blocks.len() as int,
                0,
            ),
            None => !never_escapes(func@, a),
        },
{
    let ghost f = func@;
    let n = func.blocks.len();
    let mut acc = Accesses { loads: Vec::new(), stores: Vec::new() };
    for x in 0..n
        invariant
            acc.upto(f, a, x as int, 0),
            forall|b: BlockId, i: int|
                b.0 < x && f.has_inst(b, i) ==> #[trigger] keeps_address(f, a, b, i),
            forall|b: int|
                0 <= b < x ==> !edit::terminator_reads(
                    (#[trigger] f.blocks[b]).terminator,
                ).contains(a),
    {
        let b = BlockId(x);
        let live = dom.is_reachable(b);
        assert(live == cfg::reachable(f, b)) by {
            assert(dom.reached@[x as int] <==> cfg::reachable(f, BlockId(x)));
        }
        let m = func.blocks[x].insts.len();
        for i in 0..m
            invariant
                m == f.block(b).insts.len(),
                acc.upto(f, a, x as int, i as int),
                forall|j: int| 0 <= j < i ==> #[trigger] keeps_address(f, a, b, j),
        {
            let inst = &func.blocks[x].insts[i];
            assert(inst@ == f.inst(b, i as int));
            let ghost before = acc;
            let mut known = false;
            match &inst.kind {
                InstKind::Load { ptr } => {
                    if live && *ptr == a {
                        known = true;
                        acc.loads.push((b, i));
                        proof {
                            lemma_lists_push(before.loads@, (b, i));
                        }
                    }
                },
                InstKind::Store { ptr, value } => {
                    if live && *ptr == a {
                        known = true;
                        if *value == a {
                            assert(!keeps_address(f, a, b, i as int));
                            return None;
                        }
                        acc.stores.push((b, i));
                        proof {
                            lemma_lists_push(before.stores@, (b, i));
                        }
                    }
                },
                _ => {},
            }
            if !known {
                let list = inst_operands(&inst.kind);
                if reads(&list, a) {
                    assert(!keeps_address(f, a, b, i as int));
                    return None;
                }
            }
            assert(keeps_address(f, a, b, i as int));
            assert forall|c: BlockId, j: int|
                (c.0 < x || (c.0 == x && j < i + 1)) && #[trigger] is_load(f, a, c, j) implies lists(
                acc.loads@,
                c,
                j,
            ) by {
                if c.0 == x && j == i {
                    assert(c == b);
                } else {
                    assert(lists(before.loads@, c, j));
                }
            }
            assert forall|c: BlockId, j: int|
                (c.0 < x || (c.0 == x && j < i + 1)) && #[trigger] is_store(
                    f,
                    a,
                    c,
                    j,
                ) implies lists(acc.stores@, c, j) by {
                if c.0 == x && j == i {
                    assert(c == b);
                } else {
                    assert(lists(before.stores@, c, j));
                }
            }
        }
        let list = terminator_operands(&func.blocks[x].terminator);
        if reads(&list, a) {
            assert(edit::terminator_reads(f.blocks[x as int].terminator).contains(a));
            return None;
        }
        assert forall|c: BlockId, i: int| c.0 < x + 1 && f.has_inst(c, i) implies
        #[trigger] keeps_address(f, a, c, i) by {
            if c.0 == x {
                assert(c == b);
            }
        }
    }
    Some(acc)
}

/// Whether every load sees a store.
#[verifier::loop_isolation(false)]
fn loads_are_defined(func: &Function, dom: &Dominators, a: ValueId, acc: &Accesses) -> (r: bool)
    requires
        func@.wf(),
        dom.of(func@),
        acc.upto(func@, a, func@.blocks.len() as int, 0),
    ensures
        r == forall|b: BlockId, i: int| #[trigger]
            is_load(func@, a, b, i) ==> stored_before(func@, a, b, i),
{
    let ghost f = func@;
    let n = acc.loads.len();
    let m = acc.stores.len();
    for k in 0..n
        invariant
            forall|j: int|
                0 <= j < k ==> stored_before(
                    f,
                    a,
                    (#[trigger] acc.loads@[j]).0,
                    acc.loads@[j].1 as int,
                ),
    {
        let (lb, li) = acc.loads[k];
        assert(is_load(f, a, acc.loads@[k as int].0, acc.loads@[k as int].1 as int));
        let mut defined = false;
        for j in 0..m
            invariant
                defined ==> stored_before(f, a, lb, li as int),
                !defined ==> forall|x: int|
                    0 <= x < j ==> !store_precedes(
                        f,
                        a,
                        (#[trigger] acc.stores@[x]).0,
                        acc.stores@[x].1 as int,
                        lb,
                        li as int,
                    ),
        {
            let (sb, si) = acc.stores[j];
            assert(is_store(f, a, acc.stores@[j as int].0, acc.stores@[j as int].1 as int));
            let before = if sb == lb {
                si < li
            } else {
                dominates_in(func, dom, sb, lb)
            };
            assert(before == store_precedes(f, a, sb, si as int, lb, li as int));
            if before {
                defined = true;
            }
        }
        if !defined {
            assert(!stored_before(f, a, lb, li as int)) by {
                assert forall|sb: BlockId, si: int| !(#[trigger] store_precedes(
                    f,
                    a,
                    sb,
                    si,
                    lb,
                    li as int,
                )) by {
                    if is_store(f, a, sb, si) {
                        assert(lists(acc.stores@, sb, si));
                        let x = choose|x: int|
                            0 <= x < acc.stores@.len() && (#[trigger] acc.stores@[x]).0 == sb
                                && acc.stores@[x].1 == si;
                        assert(!store_precedes(
                            f,
                            a,
                            acc.stores@[x].0,
                            acc.stores@[x].1 as int,
                            lb,
                            li as int,
                        ));
                    }
                }
            }
            return false;
        }
    }
    assert forall|b: BlockId, i: int| #[trigger] is_load(f, a, b, i) implies stored_before(
        f,
        a,
        b,
        i,
    ) by {
        assert(lists(acc.loads@, b, i));
        let x = choose|x: int|
            0 <= x < acc.loads@.len() && (#[trigger] acc.loads@[x]).0 == b && acc.loads@[x].1 == i;
        assert(stored_before(f, a, acc.loads@[x].0, acc.loads@[x].1 as int));
    }
    true
}

fn is_promotable(func: &Function, dom: &Dominators, a: ValueId) -> (r: bool)
    requires
        func@.wf(),
        dom.of(func@),
    ensures
        r == promotable(func@, a),
{
    let ghost f = func@;
    match defining_inst(func, a) {
        Some(InstKind::Alloca { ty }) => {
            match ty {
                Type::Array { .. } => {
                    return false;
                },
                _ => {},
            }
        },
        _ => {
            return false;
        },
    }
    match collect_candidate_info(func, dom, a) {
        None => false,
        Some(acc) => {
            if acc.loads.len() == 0 {
                assert forall|b: BlockId, i: int| !(#[trigger] is_load(f, a, b, i)) by {
                    if is_load(f, a, b, i) {
                        assert(lists(acc.loads@, b, i));
                    }
                }
                return false;
            }
            if acc.stores.len() == 0 {
                assert forall|b: BlockId, i: int| !(#[trigger] is_store(f, a, b, i)) by {
                    if is_store(f, a, b, i) {
                        assert(lists(acc.stores@, b, i));
                    }
                }
                return false;
            }
            assert(is_load(f, a, acc.loads@[0].0, acc.loads@[0].1 as int));
            assert(is_store(f, a, acc.stores@[0].0, acc.stores@[0].1 as int));
            loads_are_defined(func, dom, a, &acc)
        },
    }
}

fn collect_candidates(func: &Function, dom: &Dominators) -> (r: Vec<ValueId>)
    requires
        func@.wf(),
        dom.of(func@),
    ensures
        r@ == candidates_below(func@, func@.values.len() as int),
        forall|k: int|
            0 <= k < r.len() ==> func@.has_value(#[trigger] r@[k]) && slot_type(
                func@,
                r@[k],
            ) is Some,
{
    let n = func.values.len();
    let mut r: Vec<ValueId> = Vec::new();
    for v in 0..n
        invariant
            func@.wf(),
            dom.of(func@),
            n == func@.values.len(),
            r@ == candidates_below(func@, v as int),
            forall|k: int|
                0 <= k < r.len() ==> func@.has_value(#[trigger] r@[k]) && slot_type(
                    func@,
                    r@[k],
                ) is Some,
    {
        if is_promotable(func, dom, ValueId(v)) {
            r.push(ValueId(v));
        }
    }
    r
}

// ---------------------------------------------------------------------------
// Where phis are needed
// ---------------------------------------------------------------------------

/// The blocks among the first `n` that store to the slot.
pub open spec fn storing_below(f: FuncView, a: ValueId, n: int) -> Seq<BlockId>
    decreases n,
{
    if n <= 0 {
        Seq::empty()
    } else if has_store(f.blocks[n - 1].insts, a) {
        storing_below(f, a, n - 1).push(BlockId((n - 1) as usize))
    } else {
        storing_below(f, a, n - 1)
    }
}

pub open spec fn has_store(insts: Seq<InstView>, a: ValueId) -> bool {
    exists|i: int| 0 <= i < insts.len() && stores_to((#[trigger] insts[i]).kind, a)
}

/// The blocks of a list that are not placed yet, in order.
pub open spec fn newly(list: Seq<BlockId>, placed: Seq<BlockId>, n: int) -> Seq<BlockId>
    decreases n,
{
    if n <= 0 {
        Seq::empty()
    } else if placed.contains(list[n - 1]) {
        newly(list, placed, n - 1)
    } else {
        newly(list, placed, n - 1).push(list[n - 1])
    }
}

/// Follows dominance frontiers from the blocks of the worklist; `placed` are
/// the blocks that were reached, in order.
pub open spec fn placed_from(f: FuncView, work: Seq<BlockId>, placed: Seq<BlockId>, fuel: nat) -> Seq<
    BlockId,
>
    decreases fuel,
{
    if fuel == 0 || work.len() == 0 {
        placed
    } else {
        let list = frontier(f, work[0]);
        let more = newly(list, placed, list.len() as int);
        placed_from(f, work.skip(1) + more, placed + more, (fuel - 1) as nat)
    }
}

/// The blocks that need a phi for the slot, in the order in which they are
/// found.
pub open spec fn phi_blocks(f: FuncView, a: ValueId) -> Seq<BlockId> {
    placed_from(
        f,
        storing_below(f, a, f.blocks.len() as int),
        Seq::empty(),
        2 * f.blocks.len(),
    )
}

/// A phi for candidate number `cand` in a block.
#[derive(Clone, Copy, PartialEq, Eq, Structural)]
pub struct PlacedPhi {
    pub block: BlockId,
    pub cand: usize,
    pub phi: ValueId,
}

/// How many leading slots of the block are empty or phis.
pub open spec fn phi_end(insts: Seq<InstView>, i: int) -> int
    decreases insts.len() - i,
{
    if 0 <= i < insts.len() && (insts[i].kind is Nop || insts[i].kind is Phi) {
        phi_end(insts, i + 1)
    } else {
        i
    }
}

/// The function with an empty phi behind the phis of the block.
pub open spec fn phi_inserted(f: FuncView, b: BlockId, ty: Type) -> FuncView {
    f.insert(
        b,
        phi_end(f.block(b).insts, 0),
        KindView::Phi { incomings: Seq::empty() },
        Some(ty),
    )
}

/// The function with phis for one candidate in the first `n` blocks of the
/// list.
pub open spec fn slot_phis(
    f: FuncView,
    phis: Seq<PlacedPhi>,
    cand: usize,
    ty: Type,
    list: Seq<BlockId>,
    n: int,
) -> (FuncView, Seq<PlacedPhi>)
    decreases n,
{
    if n <= 0 {
        (f, phis)
    } else {
        let (g, before) = slot_phis(f, phis, cand, ty, list, n - 1);
        (
            phi_inserted(g, list[n - 1], ty),
            before.push(PlacedPhi { block: list[n - 1], cand, phi: g.next_value() }),
        )
    }
}

/// The function with phis for the first `n` candidates.
pub open spec fn all_phis(f: FuncView, cands: Seq<ValueId>, n: int) -> (FuncView, Seq<PlacedPhi>)
    decreases n,
{
    if n <= 0 {
        (f, Seq::empty())
    } else {
        let (g, phis) = all_phis(f, cands, n - 1);
        let a = cands[n - 1];
        let list = phi_blocks(f, a);
        slot_phis(g, phis, (n - 1) as usize, slot_type(f, a)->0, list, list.len() as int)
    }
}

/// The function with a zero of each slot's type, which stands for the slot
/// before its first store.
pub open spec fn seeded(g: FuncView, f: FuncView, cands: Seq<ValueId>, n: int) -> (
    FuncView,
    Seq<ValueId>,
)
    decreases n,
{
    if n <= 0 {
        (g, Seq::empty())
    } else {
        let (h, seeds) = seeded(g, f, cands, n - 1);
        (h.add_const(Const::Zero(slot_type(f, cands[n - 1])->0)), seeds.push(h.next_value()))
    }
}

// ---------------------------------------------------------------------------
// Renaming along the dominator tree
// ---------------------------------------------------------------------------

/// What renaming needs to know.
pub struct Tree {
    pub base: FuncView,
    pub cands: Seq<ValueId>,
    pub phis: Seq<PlacedPhi>,
}

/// The function so far, the value of each slot at this point, and what the
/// loads stand for.
pub struct Renaming {
    pub f: FuncView,
    pub current: Seq<ValueId>,
    pub map: Map<ValueId, ValueId>,
}

pub open spec fn cand_index(cands: Seq<ValueId>, v: ValueId, i: int) -> Option<int>
    decreases cands.len() - i,
{
    if i < 0 || i >= cands.len() {
        None
    } else if cands[i] == v {
        Some(i)
    } else {
        cand_index(cands, v, i + 1)
    }
}

/// The candidate that the phi `v` belongs to.
pub open spec fn phi_cand(phis: Seq<PlacedPhi>, v: ValueId, i: int) -> Option<int>
    decreases phis.len() - i,
{
    if i < 0 || i >= phis.len() {
        None
    } else if phis[i].phi == v {
        Some(phis[i].cand as int)
    } else {
        phi_cand(phis, v, i + 1)
    }
}

/// The phi for a candidate in a block.
pub open spec fn phi_for(phis: Seq<PlacedPhi>, b: BlockId, cand: int, i: int) -> Option<ValueId>
    decreases phis.len() - i,
{
    if i < 0 || i >= phis.len() {
        None
    } else if phis[i].block == b && phis[i].cand == cand {
        Some(phis[i].phi)
    } else {
        phi_for(phis, b, cand, i + 1)
    }
}

/// The values of the slots behind the phis of a block.
pub open spec fn after_phis(t: Tree, insts: Seq<InstView>, current: Seq<ValueId>, n: int) -> Seq<
    ValueId,
>
    decreases n,
{
    if n <= 0 {
        current
    } else {
        let before = after_phis(t, insts, current, n - 1);
        match insts[n - 1].result {
            Some(r) => match phi_cand(t.phis, r, 0) {
                Some(k) => before.update(k, r),
                None => before,
            },
            None => before,
        }
    }
}

pub open spec fn full_resolve(f: FuncView, map: Map<ValueId, ValueId>, v: ValueId) -> ValueId {
    util::resolve(map, v, f.values.len())
}

/// The effect of one instruction: promoted slots, loads and stores go.
pub open spec fn inst_renamed(t: Tree, s: Renaming, b: BlockId, i: int) -> Renaming {
    let inst = s.f.inst(b, i);
    match inst.kind {
        KindView::Alloca { .. } => match inst.result {
            Some(r) => if cand_index(t.cands, r, 0) is Some {
                Renaming { f: s.f.with_inst(b, i, edit::nop()), ..s }
            } else {
                s
            },
            None => s,
        },
        KindView::Store { ptr, value } => match cand_index(t.cands, ptr, 0) {
            Some(k) => Renaming {
                f: s.f.with_inst(b, i, InstView { result: inst.result, kind: KindView::Nop }),
                current: s.current.update(k, full_resolve(s.f, s.map, value)),
                map: s.map,
            },
            None => s,
        },
        KindView::Load { ptr } => match (cand_index(t.cands, ptr, 0), inst.result) {
            (Some(k), Some(r)) => Renaming {
                f: s.f.with_inst(b, i, edit::nop()),
                current: s.current,
                map: s.map.insert(r, s.current[k]),
            },
            _ => s,
        },
        _ => s,
    }
}

pub open spec fn insts_renamed(t: Tree, s: Renaming, b: BlockId, n: int) -> Renaming
    decreases n,
{
    if n <= 0 {
        s
    } else {
        inst_renamed(t, insts_renamed(t, s, b, n - 1), b, n - 1)
    }
}

/// The function with one more entry in the phi.
pub open spec fn phi_extended(f: FuncView, phi: ValueId, pred: BlockId, v: ValueId) -> FuncView {
    match f.value(phi).kind {
        ValueKindView::Inst(b, i) => if f.has_inst(b, i as int) {
            match f.inst(b, i as int).kind {
                KindView::Phi { incomings } => f.with_inst(
                    b,
                    i as int,
                    InstView {
                        kind: KindView::Phi { incomings: incomings.push((pred, v)) },
                        ..f.inst(b, i as int)
                    },
                ),
                _ => f,
            }
        } else {
            f
        },
        _ => f,
    }
}

/// The phis of one successor for the first `n` candidates.
pub open spec fn edge_renamed(t: Tree, s: Renaming, b: BlockId, succ: BlockId, n: int) -> FuncView
    decreases n,
{
    if n <= 0 {
        s.f
    } else {
        let before = edge_renamed(t, s, b, succ, n - 1);
        match phi_for(t.phis, succ, n - 1, 0) {
            Some(phi) => phi_extended(
                before,
                phi,
                b,
                full_resolve(before, s.map, s.current[n - 1]),
            ),
            None => before,
        }
    }
}

/// The phis of the first `n` successors.
pub open spec fn edges_renamed(t: Tree, s: Renaming, b: BlockId, n: int) -> Renaming
    decreases n,
{
    if n <= 0 {
        s
    } else {
        let before = edges_renamed(t, s, b, n - 1);
        let succ = cfg::succ_list(t.base.terminator(b))[n - 1];
        Renaming { f: edge_renamed(t, before, b, succ, t.cands.len() as int), ..before }
    }
}

/// The block itself, without what it dominates.
pub open spec fn block_renamed(t: Tree, s: Renaming, b: BlockId) -> Renaming {
    let insts = s.f.block(b).insts;
    let n = insts.len() as int;
    let entered = Renaming { current: after_phis(t, insts, s.current, n), ..s };
    let done = insts_renamed(t, entered, b, n);
    edges_renamed(t, done, b, cfg::succ_list(t.base.terminator(b)).len() as int)
}

/// The block and everything that it dominates, down to depth `fuel`.
pub open spec fn tree_renamed(t: Tree, s: Renaming, b: BlockId, fuel: nat) -> Renaming
    decreases fuel, 1int, 0int,
{
    if fuel == 0 {
        s
    } else {
        let here = block_renamed(t, s, b);
        let below = children_renamed(
            t,
            here,
            b,
            children(t.base, b).len() as int,
            (fuel - 1) as nat,
        );
        Renaming { current: s.current, ..below }
    }
}

/// The first `n` children of a block; each starts with the values at the end
/// of the block.
pub open spec fn children_renamed(t: Tree, s: Renaming, b: BlockId, n: int, fuel: nat) -> Renaming
    decreases fuel, 2int, n,
{
    if n <= 0 {
        s
    } else {
        let before = children_renamed(t, s, b, n - 1, fuel);
        tree_renamed(
            t,
            before,
            children(t.base, b)[n - 1],
            fuel,
        )
    }
}

// ---------------------------------------------------------------------------
// Entries from unreachable blocks
// ---------------------------------------------------------------------------

pub open spec fn phi_entries(f: FuncView, phi: ValueId) -> Seq<(BlockId, ValueId)> {
    match util::def_kind(f, phi) {
        Some(KindView::Phi { incomings }) => incomings,
        _ => Seq::empty(),
    }
}

/// The phi takes the seed from the unreachable predecessors among the first
/// `n` that it does not name.
pub open spec fn dead_entries(
    f: FuncView,
    base: FuncView,
    p: PlacedPhi,
    seed: ValueId,
    n: int,
) -> FuncView
    decreases n,
{
    if n <= 0 {
        f
    } else {
        let before = dead_entries(f, base, p, seed, n - 1);
        let pred = cfg::preds(base, p.block)[n - 1];
        if !cfg::reachable(base, pred) && util::incoming_from(
            phi_entries(before, p.phi),
            pred,
        ) is None {
            phi_extended(before, p.phi, pred, seed)
        } else {
            before
        }
    }
}

pub open spec fn all_dead_entries(
    f: FuncView,
    base: FuncView,
    phis: Seq<PlacedPhi>,
    seeds: Seq<ValueId>,
    n: int,
) -> FuncView
    decreases n,
{
    if n <= 0 {
        f
    } else {
        let p = phis[n - 1];
        dead_entries(
            all_dead_entries(f, base, phis, seeds, n - 1),
            base,
            p,
            seeds[p.cand as int],
            cfg::preds(base, p.block).len() as int,
        )
    }
}

/// The function with the given slots promoted.
pub open spec fn slots_promoted(f: FuncView, cands: Seq<ValueId>) -> FuncView {
    let n = cands.len() as int;
    let (f1, phis) = all_phis(f, cands, n);
    let (f2, seeds) = seeded(f1, f, cands, n);
    let t = Tree { base: f, cands, phis };
    let s = tree_renamed(
        t,
        Renaming { f: f2, current: seeds, map: Map::empty() },
        f.entry,
        f.blocks.len(),
    );
    let f3 = all_dead_entries(s.f, f, phis, seeds, phis.len() as int);
    util::map_uses(f3, util::resolver(s.map, f3.values.len()))
}

/// The function with its promotable slots promoted. Large functions are left
/// alone, and a result that would not be valid is discarded.
pub open spec fn promoted(f: FuncView) -> FuncView {
    let cands = candidates_below(f, f.values.len() as int);
    if f.blocks.len() > MAX_PROMOTION_BLOCKS || f.values.len() > MAX_PROMOTION_VALUES
        || cands.len() == 0 {
        f
    } else if verify::valid(slots_promoted(f, cands)) {
        slots_promoted(f, cands)
    } else {
        f
    }
}

/// Every function promoted.
pub open spec fn promoted_module(m: ModuleView) -> ModuleView {
    ModuleView { funcs: m.funcs.map_values(|f: FuncView| promoted(f)), ..m }
}

/// Promotion keeps a valid function valid.
pub proof fn promotion_keeps_validity(f: FuncView)
    requires
        verify::valid(f),
    ensures
        verify::valid(promoted(f)),
{
}

// ---------------------------------------------------------------------------
// Executable promotion
// ---------------------------------------------------------------------------

fn block_stores(func: &Function, b: BlockId, a: ValueId) -> (r: bool)
    requires
        func@.has_block(b),
    ensures
        r == has_store(func@.block(b).insts, a),
{
    let n = func.blocks[b.0].insts.len();
    for i in 0..n
        invariant
            func@.has_block(b),
            n == func@.block(b).insts.len(),
            forall|j: int| 0 <= j < i ==> !stores_to((#[trigger] func@.block(b).insts[j]).kind, a),
    {
        let inst = &func.blocks[b.0].insts[i];
        assert(inst@ == func@.block(b).insts[i as int]);
        if let InstKind::Store { ptr, .. } = inst.kind {
            if ptr == a {
                assert(stores_to(func@.block(b).insts[i as int].kind, a));
                return true;
            }
        }
    }
    false
}

fn store_blocks(func: &Function, a: ValueId) -> (r: Vec<BlockId>)
    ensures
        r@ == storing_below(func@, a, func@.blocks.len() as int),
        forall|k: int| 0 <= k < r.len() ==> func@.has_block(#[trigger] r@[k]),
{
    let n = func.blocks.len();
    let mut r: Vec<BlockId> = Vec::new();
    for b in 0..n
        invariant
            n == func@.blocks.len(),
            r@ == storing_below(func@, a, b as int),
            forall|k: int| 0 <= k < r.len() ==> func@.has_block(#[trigger] r@[k]),
    {
        if block_stores(func, BlockId(b), a) {
            r.push(BlockId(b));
        }
    }
    r
}

#[verifier::loop_isolation(false)]
fn find_phi_blocks(func: &Function, graph: &ControlFlowGraph, dom: &Dominators, a: ValueId) -> (r: Vec<
    BlockId,
>)
    requires
        func@.wf(),
        graph.of(func@),
        dom.of(func@),
        func@.blocks.len() <= MAX_PROMOTION_BLOCKS,
    ensures
        r@ == phi_blocks(func@, a),
        forall|k: int| 0 <= k < r.len() ==> func@.has_block(#[trigger] r@[k]),
{
    let ghost f = func@;
    let mut work = store_blocks(func, a);
    let mut placed: Vec<BlockId> = Vec::new();
    let mut fuel: usize = 2 * func.blocks.len();
    let mut at: usize = 0;
    assert(placed@ =~= Seq::<BlockId>::empty());
    assert(work@.skip(0) =~= work@);
    while fuel > 0 && at < work.len()
        invariant
            at <= work.len(),
            phi_blocks(f, a) == placed_from(f, work@.skip(at as int), placed@, fuel as nat),
            forall|k: int| 0 <= k < work.len() ==> f.has_block(#[trigger] work@[k]),
            forall|k: int| 0 <= k < placed.len() ==> f.has_block(#[trigger] placed@[k]),
        decreases fuel,
    {
        let b = work[at];
        assert(work@.skip(at as int)[0] == b);
        let list = find_frontier(func, graph, dom, b);
        let m = list.len();
        let ghost placed0 = placed@;
        let ghost work0 = work@;
        let old_placed = placed.clone();
        assert(old_placed@ =~= placed0);
        for k in 0..m
            invariant
                placed@ == placed0 + newly(list@, placed0, k as int),
                work@ == work0 + newly(list@, placed0, k as int),
                at < work0.len(),
                old_placed@ == placed0,
                forall|j: int| 0 <= j < work.len() ==> f.has_block(#[trigger] work@[j]),
                forall|j: int| 0 <= j < placed.len() ==> f.has_block(#[trigger] placed@[j]),
        {
            let y = list[k];
            let ghost some = newly(list@, placed0, k as int);
            if !crate::verify::contains_block(&old_placed, y) {
                placed.push(y);
                work.push(y);
                assert(placed@ =~= placed0 + some.push(y));
                assert(work@ =~= work0 + some.push(y));
            }
        }
        at = at + 1;
        fuel = fuel - 1;
        let ghost more = newly(list@, placed0, m as int);
        assert(work@.skip(at as int) =~= work0.skip(at - 1).skip(1) + more);
    }
    if at >= work.len() {
        assert(work@.skip(at as int).len() == 0);
    }
    placed
}

fn is_phi_or_empty(inst: &Inst) -> (r: bool)
    ensures
        r == (inst@.kind is Nop || inst@.kind is Phi),
{
    match inst.kind {
        InstKind::Nop => true,
        InstKind::Phi { .. } => true,
        _ => false,
    }
}

fn insert_phi(func: &mut Function, b: BlockId, ty: &Type) -> (r: ValueId)
    requires
        old(func)@.wf(),
        old(func)@.has_block(b),
    ensures
        final(func)@ == phi_inserted(old(func)@, b, *ty),
        r == old(func)@.next_value(),
        final(func)@.wf(),
        final(func)@.blocks.len() == old(func)@.blocks.len(),
        final(func)@.values.len() == old(func)@.values.len() + 1,
        final(func)@.has_value(r),
{
    let ghost insts = func@.block(b).insts;
    let n = func.blocks[b.0].insts.len();
    let mut pos: usize = 0;
    while pos < n && is_phi_or_empty(&func.blocks[b.0].insts[pos])
        invariant
            func@ == old(func)@,
            func@.has_block(b),
            insts == func@.block(b).insts,
            n == insts.len(),
            pos <= n,
            phi_end(insts, 0) == phi_end(insts, pos as int),
        decreases n - pos,
    {
        assert(func.blocks@[b.0 as int].insts@[pos as int]@ == insts[pos as int]);
        pos = pos + 1;
    }
    assert(pos < n ==> func.blocks@[b.0 as int].insts@[pos as int]@ == insts[pos as int]);
    let none: Vec<(BlockId, ValueId)> = Vec::new();
    assert(none@ =~= Seq::<(BlockId, ValueId)>::empty());
    let r = func.insert_inst(b, pos, InstKind::Phi { incomings: none }, Some(ty.clone()));
    assert(func.values.len() == func@.values.len());
    match r {
        Some(phi) => phi,
        None => ValueId(0),
    }
}

/// The phis name blocks, values and candidates that exist.
pub open spec fn phis_in(phis: Seq<PlacedPhi>, nb: nat, nv: nat, nc: nat) -> bool {
    forall|k: int|
        0 <= k < phis.len() ==> (#[trigger] phis[k]).block.0 < nb && phis[k].phi.0 < nv
            && phis[k].cand < nc
}

/// Inserts the phis of all candidates.
#[verifier::loop_isolation(false)]
fn insert_phis(
    func: &mut Function,
    base: &Function,
    graph: &ControlFlowGraph,
    dom: &Dominators,
    cands: &Vec<ValueId>,
) -> (r: Vec<PlacedPhi>)
    requires
        old(func)@ == base@,
        base@.wf(),
        graph.of(base@),
        dom.of(base@),
        base@.blocks.len() <= MAX_PROMOTION_BLOCKS,
        forall|k: int|
            0 <= k < cands.len() ==> slot_type(base@, #[trigger] cands@[k]) is Some,
    ensures
        (final(func)@, r@) == all_phis(base@, cands@, cands.len() as int),
        final(func)@.wf(),
        final(func)@.blocks.len() == base@.blocks.len(),
        phis_in(r@, final(func)@.blocks.len(), final(func)@.values.len(), cands.len() as nat),
{
    let ghost f = base@;
    let mut phis: Vec<PlacedPhi> = Vec::new();
    let n = cands.len();
    assert(phis@ =~= Seq::<PlacedPhi>::empty());
    for c in 0..n
        invariant
            (func@, phis@) == all_phis(f, cands@, c as int),
            func@.wf(),
            func@.blocks.len() == f.blocks.len(),
            phis_in(phis@, func@.blocks.len(), func@.values.len(), n as nat),
    {
        let a = cands[c];
        assert(slot_type(f, cands@[c as int]) is Some);
        let ty = match defining_inst(base, a) {
            Some(InstKind::Alloca { ty }) => ty.clone(),
            _ => Type::Void,
        };
        let list = find_phi_blocks(base, graph, dom, a);
        let m = list.len();
        let ghost g = func@;
        let ghost phis0 = phis@;
        for k in 0..m
            invariant
                (func@, phis@) == slot_phis(g, phis0, c, ty, list@, k as int),
                func@.wf(),
                func@.blocks.len() == f.blocks.len(),
                phis_in(phis@, func@.blocks.len(), func@.values.len(), n as nat),
        {
            let b = list[k];
            assert(f.has_block(list@[k as int]));
            let ghost before = phis@;
            let phi = insert_phi(func, b, &ty);
            phis.push(PlacedPhi { block: b, cand: c, phi });
            assert forall|j: int| 0 <= j < phis.len() implies (#[trigger] phis@[j]).block.0
                < func@.blocks.len() && phis@[j].phi.0 < func@.values.len() && phis@[j].cand
                < n by {
                if j < before.len() {
                    assert(phis@[j] == before[j]);
                }
            }
        }
    }
    phis
}

#[verifier::loop_isolation(false)]
fn add_seeds(func: &mut Function, base: &Function, cands: &Vec<ValueId>) -> (r: Vec<ValueId>)
    requires
        old(func)@.wf(),
        forall|k: int|
            0 <= k < cands.len() ==> slot_type(base@, #[trigger] cands@[k]) is Some,
    ensures
        (final(func)@, r@) == seeded(old(func)@, base@, cands@, cands.len() as int),
        final(func)@.wf(),
        final(func)@.blocks == old(func)@.blocks,
        final(func)@.values.len() >= old(func)@.values.len(),
        r.len() == cands.len(),
        edit::reads_wf(r@, final(func)@.values.len()),
{
    let ghost g = func@;
    let mut seeds: Vec<ValueId> = Vec::new();
    let n = cands.len();
    assert(seeds@ =~= Seq::<ValueId>::empty());
    for k in 0..n
        invariant
            (func@, seeds@) == seeded(g, base@, cands@, k as int),
            func@.wf(),
            func@.blocks == g.blocks,
            func@.values.len() >= g.values.len(),
            seeds.len() == k,
            edit::reads_wf(seeds@, func@.values.len()),
    {
        assert(slot_type(base@, cands@[k as int]) is Some);
        let ty = match defining_inst(base, cands[k]) {
            Some(InstKind::Alloca { ty }) => ty.clone(),
            _ => Type::Void,
        };
        let ghost before = seeds@;
        let seed = func.add_const(Const::Zero(ty));
        assert(func.values.len() == func@.values.len());
        seeds.push(seed);
        assert forall|j: int| 0 <= j < seeds.len() implies (#[trigger] seeds@[j]).0
            < func@.values.len() by {
            if j < before.len() {
                assert(seeds@[j] == before[j]);
            }
        }
    }
    seeds
}

fn find_cand(cands: &Vec<ValueId>, v: ValueId) -> (r: Option<usize>)
    ensures
        match r {
            Some(k) => cand_index(cands@, v, 0) == Some(k as int) && k < cands.len(),
            None => cand_index(cands@, v, 0) is None,
        },
{
    let n = cands.len();
    for k in 0..n
        invariant
            n == cands.len(),
            cand_index(cands@, v, 0) == cand_index(cands@, v, k as int),
    {
        if cands[k] == v {
            return Some(k);
        }
    }
    None
}

fn find_phi_cand(phis: &Vec<PlacedPhi>, v: ValueId, Ghost(nb): Ghost<nat>, Ghost(nv): Ghost<nat>, Ghost(
    nc,
): Ghost<nat>) -> (r: Option<usize>)
    requires
        phis_in(phis@, nb, nv, nc),
    ensures
        match r {
            Some(k) => phi_cand(phis@, v, 0) == Some(k as int) && k < nc,
            None => phi_cand(phis@, v, 0) is None,
        },
{
    let n = phis.len();
    for k in 0..n
        invariant
            n == phis.len(),
            phis_in(phis@, nb, nv, nc),
            phi_cand(phis@, v, 0) == phi_cand(phis@, v, k as int),
    {
        assert(phis@[k as int].cand < nc);
        if phis[k].phi == v {
            return Some(phis[k].cand);
        }
    }
    None
}

fn find_phi_for(phis: &Vec<PlacedPhi>, b: BlockId, cand: usize, Ghost(nb): Ghost<nat>, Ghost(
    nv,
): Ghost<nat>, Ghost(nc): Ghost<nat>) -> (r: Option<ValueId>)
    requires
        phis_in(phis@, nb, nv, nc),
    ensures
        r == phi_for(phis@, b, cand as int, 0),
        r matches Some(v) ==> v.0 < nv,
{
    let n = phis.len();
    for k in 0..n
        invariant
            n == phis.len(),
            phis_in(phis@, nb, nv, nc),
            phi_for(phis@, b, cand as int, 0) == phi_for(phis@, b, cand as int, k as int),
    {
        assert(phis@[k as int].phi.0 < nv);
        if phis[k].block == b && phis[k].cand == cand {
            return Some(phis[k].phi);
        }
    }
    None
}

fn add_phi_incoming(func: &mut Function, phi: ValueId, pred: BlockId, v: ValueId)
    requires
        old(func)@.wf(),
        old(func)@.has_value(phi),
        old(func)@.has_block(pred),
        old(func)@.has_value(v),
    ensures
        final(func)@ == phi_extended(old(func)@, phi, pred, v),
        final(func)@.wf(),
        final(func)@.blocks.len() == old(func)@.blocks.len(),
        final(func)@.values == old(func)@.values,
{
    if let ValueKind::Inst(b, i) = func.values[phi.0].kind {
        assert(func@.value(phi).kind == ValueKindView::Inst(b, i));
        if b.0 < func.blocks.len() && i < func.blocks[b.0].insts.len() {
            let inst = &func.blocks[b.0].insts[i];
            assert(inst@ == func@.inst(b, i as int));
            proof {
                query::lemma_inst_wf(func@, b, i as int);
            }
            if let InstKind::Phi { incomings } = &inst.kind {
                let mut list = ir::clone_incomings(incomings);
                list.push((pred, v));
                assert forall|k: int| 0 <= k < list.len() implies (#[trigger] list@[k]).0.0
                    < func@.blocks.len() && list@[k].1.0 < func@.values.len() by {
                    if k < incomings.len() {
                        assert(list@[k] == incomings@[k]);
                    }
                }
                let result = inst.result;
                func.set_inst(
                    b,
                    i,
                    Inst { result, kind: InstKind::Phi { incomings: list } },
                );
            }
        }
    }
}

/// What renaming needs to know, with the dominator tree.
pub struct Walker<'a> {
    pub base: &'a Function,
    pub graph: &'a ControlFlowGraph,
    pub dom: &'a Dominators,
    pub cands: &'a Vec<ValueId>,
    pub phis: &'a Vec<PlacedPhi>,
}

impl<'a> Walker<'a> {
    pub open spec fn tree(self) -> Tree {
        Tree { base: self.base@, cands: self.cands@, phis: self.phis@ }
    }

    pub open spec fn wf(self, nv: nat) -> bool {
        &&& self.base@.wf()
        &&& self.graph.of(self.base@)
        &&& self.dom.of(self.base@)
        &&& phis_in(self.phis@, self.base@.blocks.len(), nv, self.cands.len() as nat)
    }

    /// The function, the slot values and the map fit together.
    pub open spec fn fits(self, f: FuncView, current: Seq<ValueId>, map: Map<ValueId, ValueId>) -> bool {
        &&& f.wf()
        &&& f.blocks.len() == self.base@.blocks.len()
        &&& current.len() == self.cands.len()
        &&& edit::reads_wf(current, f.values.len())
        &&& util::range_below(map, f.values.len())
    }

    #[verifier::loop_isolation(false)]
    fn enter(&self, func: &Function, b: BlockId, current: &mut Vec<ValueId>, Ghost(
        map,
    ): Ghost<Map<ValueId, ValueId>>)
        requires
            self.wf(func@.values.len()),
            self.fits(func@, old(current)@, map),
            func@.has_block(b),
        ensures
            final(current)@ == after_phis(
                self.tree(),
                func@.block(b).insts,
                old(current)@,
                func@.block(b).insts.len() as int,
            ),
            self.fits(func@, final(current)@, map),
    {
        let ghost f = func@;
        let ghost insts = f.block(b).insts;
        let ghost start = current@;
        let n = func.blocks[b.0].insts.len();
        for i in 0..n
            invariant
                n == insts.len(),
                current@ == after_phis(self.tree(), insts, start, i as int),
                self.fits(f, current@, map),
        {
            let inst = &func.blocks[b.0].insts[i];
            assert(inst@ == insts[i as int]);
            proof {
                query::lemma_inst_wf(f, b, i as int);
            }
            if let Some(r) = inst.result {
                let found = find_phi_cand(
                    self.phis,
                    r,
                    Ghost(f.blocks.len()),
                    Ghost(f.values.len()),
                    Ghost(self.cands.len() as nat),
                );
                if let Some(k) = found {
                    let ghost before = current@;
                    current[k] = r;
                    assert(current@ =~= before.update(k as int, r));
                    assert(edit::reads_wf(current@, f.values.len())) by {
                        assert forall|j: int| 0 <= j < current.len() implies (
                        #[trigger] current@[j]).0 < f.values.len() by {
                            assert(before[j].0 < f.values.len());
                        }
                    }
                }
            }
        }
    }

    /// Renames the instructions of a block.
    #[verifier::loop_isolation(false)]
    #[verifier::rlimit(40)]
    fn rename_insts(
        &self,
        func: &mut Function,
        b: BlockId,
        current: &mut Vec<ValueId>,
        map: &mut ValueMap,
    )
        requires
            self.wf(old(func)@.values.len()),
            self.fits(old(func)@, old(current)@, old(map)@),
            old(func)@.has_block(b),
        ensures
            ({
                let start = Renaming { f: old(func)@, current: old(current)@, map: old(map)@ };
                let end = Renaming { f: final(func)@, current: final(current)@, map: final(map)@ };
                end == insts_renamed(
                    self.tree(),
                    start,
                    b,
                    old(func)@.block(b).insts.len() as int,
                )
            }),
            self.fits(final(func)@, final(current)@, final(map)@),
            final(func)@.values == old(func)@.values,
    {
        let ghost t = self.tree();
        let ghost start = Renaming { f: func@, current: current@, map: map@ };
        let ghost values = func@.values;
        let n = func.blocks[b.0].insts.len();
        let fuel = func.values.len();
        for i in 0..n
            invariant
                func@.has_block(b),
                n == func@.block(b).insts.len(),
                func@.values == values,
                (Renaming { f: func@, current: current@, map: map@ }) == insts_renamed(
                    t,
                    start,
                    b,
                    i as int,
                ),
                self.fits(func@, current@, map@),
        {
            let ghost f = func@;
            assert(func.blocks.len() == f.blocks.len());
            assert(func.values.len() == f.values.len());
            let inst = func.blocks[b.0].insts[i].clone();
            assert(inst@ == f.inst(b, i as int));
            proof {
                query::lemma_inst_wf(f, b, i as int);
            }
            match inst.kind {
                InstKind::Alloca { .. } => {
                    if let Some(r) = inst.result {
                        if find_cand(self.cands, r).is_some() {
                            func.clear_inst(b, i);
                        }
                    }
                },
                InstKind::Store { ptr, value } => {
                    if let Some(k) = find_cand(self.cands, ptr) {
                        let v = map.resolve(value, fuel);
                        proof {
                            util::lemma_resolve_in_range(
                                map@,
                                value,
                                fuel as nat,
                                f.values.len(),
                            );
                        }
                        let ghost before = current@;
                        current[k] = v;
                        assert(current@ =~= before.update(k as int, v));
                        assert(edit::reads_wf(current@, f.values.len())) by {
                            assert forall|j: int| 0 <= j < current.len() implies (
                            #[trigger] current@[j]).0 < f.values.len() by {
                                assert(before[j].0 < f.values.len());
                            }
                        }
                        func.set_inst(b, i, Inst { result: inst.result, kind: InstKind::Nop });
                    }
                },
                InstKind::Load { ptr } => {
                    if let Some(k) = find_cand(self.cands, ptr) {
                        if let Some(r) = inst.result {
                            let v = current[k];
                            assert(current@[k as int].0 < f.values.len());
                            map.insert(r, v);
                            func.clear_inst(b, i);
                        }
                    }
                },
                _ => {},
            }
        }
    }

    /// Fills in the phis of the successors of a block.
    #[verifier::loop_isolation(false)]
    fn fill_edges(&self, func: &mut Function, b: BlockId, current: &Vec<ValueId>, map: &ValueMap)
        requires
            self.wf(old(func)@.values.len()),
            self.fits(old(func)@, current@, map@),
            old(func)@.has_block(b),
        ensures
            ({
                let start = Renaming { f: old(func)@, current: current@, map: map@ };
                let end = Renaming { f: final(func)@, current: current@, map: map@ };
                end == edges_renamed(
                    self.tree(),
                    start,
                    b,
                    cfg::succ_list(self.base@.terminator(b)).len() as int,
                )
            }),
            self.fits(final(func)@, current@, map@),
            final(func)@.values == old(func)@.values,
    {
        let ghost t = self.tree();
        let ghost start = Renaming { f: func@, current: current@, map: map@ };
        let ghost values = func@.values;
        let succs = cfg::block_successors(self.base, b.0);
        let n = succs.len();
        let m = self.cands.len();
        let fuel = func.values.len();
        for x in 0..n
            invariant
                (Renaming { f: func@, current: current@, map: map@ }) == edges_renamed(
                    t,
                    start,
                    b,
                    x as int,
                ),
                self.fits(func@, current@, map@),
                func@.values == values,
        {
            let succ = succs[x];
            let ghost s = Renaming { f: func@, current: current@, map: map@ };
            for k in 0..m
                invariant
                    func@ == edge_renamed(t, s, b, succ, k as int),
                    self.fits(func@, current@, map@),
                    func@.values == values,
            {
                let found = find_phi_for(
                    self.phis,
                    succ,
                    k,
                    Ghost(func@.blocks.len()),
                    Ghost(func@.values.len()),
                    Ghost(m as nat),
                );
                if let Some(phi) = found {
                    assert(current@[k as int].0 < func@.values.len());
                    let v = map.resolve(current[k], fuel);
                    proof {
                        util::lemma_resolve_in_range(
                            map@,
                            current@[k as int],
                            fuel as nat,
                            func@.values.len(),
                        );
                    }
                    add_phi_incoming(func, phi, b, v);
                }
            }
        }
    }

    /// Renames a block and everything that it dominates.
    fn rename_block(
        &self,
        func: &mut Function,
        b: BlockId,
        current: &Vec<ValueId>,
        map: &mut ValueMap,
        fuel: usize,
    )
        requires
            self.wf(old(func)@.values.len()),
            self.fits(old(func)@, current@, old(map)@),
            old(func)@.has_block(b),
        ensures
            ({
                let start = Renaming { f: old(func)@, current: current@, map: old(map)@ };
                let end = Renaming { f: final(func)@, current: current@, map: final(map)@ };
                end == tree_renamed(self.tree(), start, b, fuel as nat)
            }),
            self.fits(final(func)@, current@, final(map)@),
            final(func)@.values == old(func)@.values,
        decreases fuel,
    {
        if fuel == 0 {
            return ;
        }
        let ghost t = self.tree();
        let ghost s0 = Renaming { f: func@, current: current@, map: map@ };
        let mut here: Vec<ValueId> = current.clone();
        assert(here@ =~= current@);
        self.enter(func, b, &mut here, Ghost(map@));
        self.rename_insts(func, b, &mut here, map);
        self.fill_edges(func, b, &here, map);
        let ghost s1 = Renaming { f: func@, current: here@, map: map@ };
        assert(s1 == block_renamed(t, s0, b));
        let kids = find_children(self.base, self.dom, b);
        proof {
            loops::lemma_filtered(loops::all_ids(self.base@.blocks.len()), child_of(self.base@, b));
        }
        let n = kids.len();
        for k in 0..n
            invariant
                n == kids.len(),
                fuel > 0,
                t == self.tree(),
                kids@ == children(self.base@, b),
                self.base@.blocks.len() <= usize::MAX,
                forall|j: int|
                    0 <= j < children(self.base@, b).len() ==> loops::all_ids(
                        self.base@.blocks.len(),
                    ).contains(#[trigger] children(self.base@, b)[j]),
                self.wf(func@.values.len()),
                self.fits(func@, here@, map@),
                func@.values == s1.f.values,
                (Renaming { f: func@, current: here@, map: map@ }) == children_renamed(
                    t,
                    s1,
                    b,
                    k as int,
                    (fuel - 1) as nat,
                ),
        {
            let child = kids[k];
            assert(loops::all_ids(self.base@.blocks.len()).contains(children(self.base@, b)[
                k as int
            ]));
            self.rename_block(func, child, &here, map, fuel - 1);
        }
        assert(edit::reads_wf(current@, func@.values.len()));
    }
}

#[verifier::loop_isolation(false)]
fn fill_unreachable_phi_incomings(
    func: &mut Function,
    base: &Function,
    graph: &ControlFlowGraph,
    dom: &Dominators,
    phis: &Vec<PlacedPhi>,
    seeds: &Vec<ValueId>,
)
    requires
        old(func)@.wf(),
        base@.wf(),
        graph.of(base@),
        dom.of(base@),
        old(func)@.blocks.len() == base@.blocks.len(),
        phis_in(phis@, base@.blocks.len(), old(func)@.values.len(), seeds.len() as nat),
        edit::reads_wf(seeds@, old(func)@.values.len()),
    ensures
        final(func)@ == all_dead_entries(
            old(func)@,
            base@,
            phis@,
            seeds@,
            phis.len() as int,
        ),
        final(func)@.wf(),
        final(func)@.values == old(func)@.values,
{
    let ghost f0 = func@;
    let n = phis.len();
    for x in 0..n
        invariant
            func@ == all_dead_entries(f0, base@, phis@, seeds@, x as int),
            func@.wf(),
            func@.blocks.len() == base@.blocks.len(),
            func@.values == f0.values,
    {
        let p = phis[x];
        assert(phis@[x as int].block.0 < base@.blocks.len());
        let seed = seeds[p.cand];
        assert(seeds@[p.cand as int].0 < f0.values.len());
        let preds = preds_of(base, graph, p.block);
        proof {
            assert(base.blocks.len() == base@.blocks.len());
            query::lemma_preds_wf(base@, p.block);
        }
        let m = preds.len();
        let ghost g = func@;
        for k in 0..m
            invariant
                func@ == dead_entries(g, base@, p, seed, k as int),
                func@.wf(),
                func@.blocks.len() == base@.blocks.len(),
                func@.values == f0.values,
        {
            let pred = preds[k];
            assert(base@.has_block(cfg::preds(base@, p.block)[k as int]));
            let named = match defining_inst(func, p.phi) {
                Some(InstKind::Phi { incomings }) => first_incoming(incomings, pred).is_some(),
                _ => false,
            };
            assert(dom.reached@[pred.0 as int] <==> cfg::reachable(base@, BlockId(pred.0)));
            if !dom.is_reachable(pred) && !named {
                add_phi_incoming(func, p.phi, pred, seed);
            }
        }
    }
}

/// Promotes the scalar stack slots of a function.
pub fn promote_function(func: &mut Function)
    requires
        old(func)@.wf(),
    ensures
        final(func)@ == promoted(old(func)@),
        final(func)@.wf(),
{
    if func.blocks.len() > MAX_PROMOTION_BLOCKS || func.values.len() > MAX_PROMOTION_VALUES {
        return ;
    }
    let base = func.clone();
    let graph = ControlFlowGraph::new(&base);
    let dom = Dominators::new(&base, &graph);
    let cands = collect_candidates(&base, &dom);
    if cands.len() == 0 {
        return ;
    }
    let phis = insert_phis(func, &base, &graph, &dom, &cands);
    let ghost nv1 = func@.values.len();
    let seeds = add_seeds(func, &base, &cands);
    proof {
        assert(phis_in(
            phis@,
            base@.blocks.len(),
            func@.values.len(),
            cands.len() as nat,
        )) by {
            assert forall|k: int| 0 <= k < phis.len() implies (#[trigger] phis@[k]).block.0
                < base@.blocks.len() && phis@[k].phi.0 < func@.values.len() && phis@[k].cand
                < cands.len() by {
                assert(phis@[k].phi.0 < nv1);
            }
        }
    }
    let mut map = ValueMap::new();
    let walker = Walker { base: &base, graph: &graph, dom: &dom, cands: &cands, phis: &phis };
    walker.rename_block(func, base.entry, &seeds, &mut map, base.blocks.len());
    fill_unreachable_phi_incomings(func, &base, &graph, &dom, &phis, &seeds);
    rewrite_function_uses(func, &map);
    if func.verify().is_err() {
        *func = base;
    }
}

/// The pass over all functions of a module.
pub struct ScalarPromotePass;

impl ScalarPromotePass {
    pub fn new() -> (r: Self) {
        ScalarPromotePass
    }

    /// Promotes the scalar stack slots of every function.
    pub fn run(&self, module: &mut Module)
        requires
            old(module)@.wf(),
        ensures
            final(module)@ == promoted_module(old(module)@),
            final(module)@.wf(),
    {
        let ghost m = module@;
        let ghost want = promoted_module(m);
        let n = module.funcs.len();
        for k in 0..n
            invariant
                n == module.funcs.len(),
                n == m.funcs.len(),
                m.wf(),
                module@ == (ModuleView { funcs: module@.funcs, ..m }),
                want == promoted_module(m),
                forall|j: int|
                    0 <= j < k ==> #[trigger] module@.funcs[j] == want.funcs[j]
                        && module@.funcs[j].wf(),
                forall|j: int| k <= j < n ==> #[trigger] module@.funcs[j] == m.funcs[j],
        {
            assert(module@.funcs[k as int] == m.funcs[k as int]);
            let ghost before = module@.funcs;
            promote_function(&mut module.funcs[k]);
            assert(module@.funcs =~= before.update(k as int, module.funcs@[k as int]@));
        }
        assert(module@.funcs =~= want.funcs);
    }
}

} // verus!
