//! The rewriting: accesses through one pointer go through another.
use vstd::prelude::*;

use crate::emit;
use crate::emit::insert;
use crate::ir;
use crate::ir::{
    BlockId, BlockView, Const, FuncView, Function, Inst, InstKind, InstView, KindView, ValueId,
};
use crate::pass::pointer_recurrence_coalesce::pairs;
use crate::pass::pointer_recurrence_coalesce::pairs::Plan;
use crate::util;
use crate::util::{get_or_add_i32_const, ValueMap};

verus! {

// ---------------------------------------------------------------------------
// Mathematical model
// ---------------------------------------------------------------------------

/// The first place, from `k` on, of an instruction that is no phi.
pub open spec fn first_plain(insts: Seq<InstView>, k: int) -> int
    decreases insts.len() - k,
{
    if k < 0 || k >= insts.len() || !(insts[k].kind is Nop || insts[k].kind is Phi) {
        k
    } else {
        first_plain(insts, k + 1)
    }
}

/// How many of the first `k` plans add an instruction to the block.
pub open spec fn added_to(plans: Seq<Plan>, b: BlockId, k: int) -> nat
    decreases k,
{
    if k <= 0 {
        0
    } else {
        added_to(plans, b, k - 1) + (if plans[k - 1].header == b && plans[k - 1].distance != 0 {
            1nat
        } else {
            0nat
        })
    }
}

/// Where a new pointer is computed: behind the phis, and behind the pointers
/// that were added before.
pub open spec fn place_in(insts: Seq<InstView>, added: nat) -> int {
    let place = first_plain(insts, 0) + added;
    if place <= insts.len() {
        place
    } else {
        insts.len() as int
    }
}

/// The function with the pointer that stands for the secondary one.
pub open spec fn pointer_added(f: FuncView, p: Plan, added: nat) -> (FuncView, ValueId) {
    if p.distance == 0 {
        (f, p.primary)
    } else {
        let index = util::const_value(f, Const::Int(p.distance));
        let f1 = util::with_const(f, Const::Int(p.distance));
        (
            emit::inserted(
                f1,
                p.header.0,
                place_in(f1.block(p.header).insts, added),
                KindView::Gep { base: p.primary, indices: seq![index] },
                f1.value(p.primary).ty,
            ),
            f1.next_value(),
        )
    }
}

/// The function with the pointers of the first `k` plans, and what stands for
/// the secondary ones.
pub open spec fn pointers_added(f: FuncView, plans: Seq<Plan>, k: int) -> (
    FuncView,
    Map<ValueId, ValueId>,
)
    decreases k,
{
    if k <= 0 {
        (f, Map::empty())
    } else {
        let (f1, map) = pointers_added(f, plans, k - 1);
        let p = plans[k - 1];
        let (f2, v) = pointer_added(f1, p, added_to(plans, p.header, k - 1));
        (f2, map.insert(p.secondary, v))
    }
}

/// The access through another pointer.
pub open spec fn moved_kind(kind: KindView, map: Map<ValueId, ValueId>) -> KindView {
    match kind {
        KindView::Load { ptr } => KindView::Load { ptr: util::apply(map, ptr) },
        KindView::Store { ptr, value } => KindView::Store { ptr: util::apply(map, ptr), value },
        _ => kind,
    }
}

pub open spec fn moved_insts(insts: Seq<InstView>, map: Map<ValueId, ValueId>) -> Seq<InstView> {
    Seq::new(
        insts.len(),
        |i: int| InstView { result: insts[i].result, kind: moved_kind(insts[i].kind, map) },
    )
}

/// The function with the accesses of the first `n` blocks moved.
pub open spec fn moved_below(f: FuncView, map: Map<ValueId, ValueId>, n: int) -> FuncView {
    FuncView {
        blocks: Seq::new(
            f.blocks.len(),
            |b: int|
                if b < n {
                    BlockView { insts: moved_insts(f.blocks[b].insts, map), ..f.blocks[b] }
                } else {
                    f.blocks[b]
                },
        ),
        ..f
    }
}

/// The function with the pointers coalesced.
pub open spec fn coalesced(f: FuncView, plans: Seq<Plan>) -> FuncView {
    let (f1, map) = pointers_added(f, plans, plans.len() as int);
    moved_below(f1, map, f1.blocks.len() as int)
}

// ---------------------------------------------------------------------------
// Executable functions
// ---------------------------------------------------------------------------

fn find_place(insts: &Vec<Inst>, added: usize) -> (r: usize)
    ensures
        r == place_in(ir::insts_view(insts@), added as nat),
        r <= insts.len(),
{
    let ghost views = ir::insts_view(insts@);
    let n = insts.len();
    let mut k: usize = 0;
    let mut on = true;
    while k < n && on
        invariant
            n == insts.len(),
            k <= n,
            views == ir::insts_view(insts@),
            views.len() == n,
            first_plain(views, 0) == first_plain(views, k as int),
            !on ==> first_plain(views, 0) == k,
        decreases n - k + (if on {
                1int
            } else {
                0int
            }),
    {
        assert(views[k as int] == insts@[k as int]@);
        match insts[k].kind {
            InstKind::Nop => {
                k = k + 1;
            },
            InstKind::Phi { .. } => {
                k = k + 1;
            },
            _ => {
                on = false;
            },
        }
    }
    if added <= n - k {
        k + added
    } else {
        n
    }
}

fn add_pointer(func: &mut Function, p: Plan, added: usize) -> (r: ValueId)
    requires
        pairs::plan_in(old(func)@, p),
    ensures
        (final(func)@, r) == pointer_added(old(func)@, p, added as nat),
        final(func)@.blocks.len() == old(func)@.blocks.len(),
        final(func)@.values.len() >= old(func)@.values.len(),
{
    if p.distance == 0 {
        return p.primary;
    }
    let index = get_or_add_i32_const(func, p.distance);
    assert(func.blocks@[p.header.0 as int]@ == func@.block(p.header));
    let place = find_place(&func.blocks[p.header.0].insts, added);
    assert(func.values@[p.primary.0 as int]@ == func@.value(p.primary));
    let ty = func.values[p.primary.0].ty.clone();
    let indices = vec![index];
    assert(indices@ =~= seq![index]);
    insert(func, p.header.0, place, InstKind::Gep { base: p.primary, indices }, ty)
}

fn count_added(plans: &Vec<Plan>, b: BlockId, k: usize) -> (r: usize)
    requires
        k <= plans.len(),
    ensures
        r == added_to(plans@, b, k as int),
{
    let mut count: usize = 0;
    for j in 0..k
        invariant
            k <= plans.len(),
            count <= j,
            count == added_to(plans@, b, j as int),
    {
        if plans[j].header == b && plans[j].distance != 0 {
            count = count + 1;
        }
    }
    count
}

fn move_insts(insts: &Vec<Inst>, map: &ValueMap) -> (r: Vec<Inst>)
    ensures
        ir::insts_view(r@) == moved_insts(ir::insts_view(insts@), map@),
{
    let ghost views = ir::insts_view(insts@);
    let mut list: Vec<Inst> = Vec::new();
    let n = insts.len();
    for i in 0..n
        invariant
            n == insts.len(),
            views == ir::insts_view(insts@),
            list.len() == i,
            forall|j: int|
                0 <= j < i ==> (#[trigger] list@[j])@ == (InstView {
                    result: views[j].result,
                    kind: moved_kind(views[j].kind, map@),
                }),
    {
        let inst = &insts[i];
        assert(views[i as int] == inst@);
        let kind = match &inst.kind {
            InstKind::Load { ptr } => InstKind::Load { ptr: map.apply(*ptr) },
            InstKind::Store { ptr, value } => InstKind::Store {
                ptr: map.apply(*ptr),
                value: *value,
            },
            kind => kind.clone(),
        };
        list.push(Inst { result: inst.result, kind });
    }
    assert(ir::insts_view(list@) =~= moved_insts(views, map@));
    list
}

fn move_accesses(func: &mut Function, map: &ValueMap)
    ensures
        final(func)@ == moved_below(
            old(func)@,
            map@,
            old(func)@.blocks.len() as int,
        ),
{
    let ghost f = func@;
    let n = func.blocks.len();
    assert(func@.blocks =~= moved_below(f, map@, 0).blocks);
    for b in 0..n
        invariant
            n == f.blocks.len(),
            n == func@.blocks.len(),
            func@ == moved_below(f, map@, b as int),
    {
        assert(func.blocks.len() == func@.blocks.len());
        assert(func.blocks@[b as int]@ == func@.blocks[b as int]);
        assert(func@.blocks[b as int] == f.blocks[b as int]);
        let list = move_insts(&func.blocks[b].insts, map);
        func.set_insts(BlockId(b), list);
        assert(func@.blocks =~= moved_below(f, map@, b + 1).blocks);
    }
}

/// Coalesces the pointers.
pub fn apply_plans(func: &mut Function, plans: &Vec<Plan>)
    requires
        pairs::plans_in(old(func)@, plans@),
    ensures
        final(func)@ == coalesced(old(func)@, plans@),
{
    let ghost f = func@;
    let mut map = ValueMap::new();
    let n = plans.len();
    for k in 0..n
        invariant
            n == plans.len(),
            pairs::plans_in(f, plans@),
            func@.blocks.len() == f.blocks.len(),
            func@.values.len() >= f.values.len(),
            (func@, map@) == pointers_added(f, plans@, k as int),
    {
        let p = plans[k];
        assert(pairs::plan_in(f, plans@[k as int]));
        assert(func.values.len() == func@.values.len());
        let added = count_added(plans, p.header, k);
        let v = add_pointer(func, p, added);
        map.insert(p.secondary, v);
    }
    move_accesses(func, &map);
}

} // verus!
