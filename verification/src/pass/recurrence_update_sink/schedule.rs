//! Moving of pointer updates behind the last use of the old pointer.
use vstd::prelude::*;

use crate::edit;
use crate::edit::inst_operands;
use crate::emit;
use crate::emit::{place, refill};
use crate::ir;
use crate::ir::{
    BinaryOp, BlockId, FuncView, Function, Inst, InstKind, InstView, KindView, Type, ValueId,
    ValueKind, ValueKindView,
};
use crate::loops;
use crate::loops::{LoopView, NaturalLoop};
use crate::patterns::contains_value;
use crate::query;
use crate::util;
use crate::util::{defining_block, defining_inst};

verus! {

/// An update of a pointer in the header of a loop.
#[derive(Clone, Copy, PartialEq, Eq, Structural)]
pub struct Update {
    pub header: BlockId,
    pub phi: ValueId,
    pub value: ValueId,
}

// ---------------------------------------------------------------------------
// Mathematical model
// ---------------------------------------------------------------------------

/// The value that an update starts from.
pub open spec fn base_of(kind: KindView) -> Option<ValueId> {
    match kind {
        KindView::Gep { base, .. } => Some(base),
        KindView::Binary { op, lhs, .. } => if op is Iadd || op is Isub {
            Some(lhs)
        } else {
            None
        },
        _ => None,
    }
}

/// What has been gathered: the values that were looked at, and the updates.
pub struct Gathered {
    pub seen: Seq<bool>,
    pub list: Seq<Update>,
}

/// The value updates the phi in the header of the loop.
pub open spec fn is_update(f: FuncView, l: LoopView, phi: ValueId, v: ValueId) -> bool {
    &&& match util::def_kind(f, v) {
        Some(kind) => base_of(kind) == Some(phi),
        None => false,
    }
    &&& util::def_block(f, v) == Some(l.header)
}

/// The updates among the first `n` entries of a phi.
pub open spec fn entries_gathered(
    f: FuncView,
    l: LoopView,
    phi: ValueId,
    incomings: Seq<(BlockId, ValueId)>,
    s: Gathered,
    n: int,
) -> Gathered
    decreases n,
{
    if n <= 0 {
        s
    } else {
        let before = entries_gathered(f, l, phi, incomings, s, n - 1);
        let (pred, v) = incomings[n - 1];
        if !l.has(pred) || before.seen[v.0 as int] {
            before
        } else {
            Gathered {
                seen: before.seen.update(v.0 as int, true),
                list: if is_update(f, l, phi, v) {
                    before.list.push(Update { header: l.header, phi, value: v })
                } else {
                    before.list
                },
            }
        }
    }
}

/// The phi of pointers that an instruction is.
pub open spec fn pointer_phi(f: FuncView, inst: InstView) -> Option<
    (ValueId, Seq<(BlockId, ValueId)>),
> {
    match (inst.result, inst.kind) {
        (Some(phi), KindView::Phi { incomings }) => if f.value(phi).ty is Ptr {
            Some((phi, incomings))
        } else {
            None
        },
        _ => None,
    }
}

/// The updates of the phis among the first `n` instructions.
pub open spec fn insts_gathered(
    f: FuncView,
    l: LoopView,
    insts: Seq<InstView>,
    s: Gathered,
    n: int,
) -> Gathered
    decreases n,
{
    if n <= 0 {
        s
    } else {
        let before = insts_gathered(f, l, insts, s, n - 1);
        match pointer_phi(f, insts[n - 1]) {
            Some((phi, incomings)) => entries_gathered(
                f,
                l,
                phi,
                incomings,
                before,
                incomings.len() as int,
            ),
            None => before,
        }
    }
}

/// The updates of the first `n` loops.
pub open spec fn loops_gathered(f: FuncView, list: Seq<LoopView>, n: int) -> Gathered
    decreases n,
{
    if n <= 0 {
        Gathered { seen: Seq::new(f.values.len(), |v: int| false), list: Seq::empty() }
    } else {
        let insts = f.block(list[n - 1].header).insts;
        insts_gathered(f, list[n - 1], insts, loops_gathered(f, list, n - 1), insts.len() as int)
    }
}

/// All updates of pointers in headers of loops.
pub open spec fn updates_of(f: FuncView) -> Seq<Update> {
    let list = loops::loops_of(f);
    loops_gathered(f, list, list.len() as int).list
}

/// The last of the first `n` instructions, other than the one at `skip`, that
/// reads the value.
pub open spec fn last_read(insts: Seq<InstView>, v: ValueId, skip: int, n: int) -> Option<int>
    decreases n,
{
    if n <= 0 {
        None
    } else if n - 1 != skip && edit::operands(insts[n - 1].kind).contains(v) {
        Some(n - 1)
    } else {
        last_read(insts, v, skip, n - 1)
    }
}

/// The first instruction from place `k` on, other than the one at `skip` and
/// phis, that reads the value. What a phi takes is read where its block is
/// entered from, not where the phi stands.
pub open spec fn first_read(insts: Seq<InstView>, v: ValueId, skip: int, k: int) -> Option<int>
    decreases insts.len() - k,
{
    if k < 0 || k >= insts.len() {
        None
    } else if k != skip && !(insts[k].kind is Phi) && edit::operands(insts[k].kind).contains(v) {
        Some(k)
    } else {
        first_read(insts, v, skip, k + 1)
    }
}

/// Where the update stands, and the last use of the old pointer behind it; only
/// where the update is not read up to there.
pub open spec fn move_of(f: FuncView, u: Update) -> Option<(usize, usize)> {
    let insts = f.block(u.header).insts;
    match f.value(u.value).kind {
        ValueKindView::Inst(owner, at) => if owner == u.header && at < insts.len()
            && insts[at as int].result == Some(u.value) && base_of(insts[at as int].kind) == Some(
            u.phi,
        ) {
            match last_read(insts, u.phi, at as int, insts.len() as int) {
                Some(last) => if last > at && match first_read(insts, u.value, at as int, 0) {
                    Some(first) => first > last,
                    None => true,
                } {
                    Some((at, last as usize))
                } else {
                    None
                },
                None => None,
            }
        } else {
            None
        },
        _ => None,
    }
}

/// The instructions with the one at `at` behind the one at `last`.
pub open spec fn inst_moved(insts: Seq<InstView>, at: int, last: int) -> Seq<InstView> {
    Seq::new(
        insts.len(),
        |i: int|
            if i < at || i > last {
                insts[i]
            } else if i == last {
                insts[at]
            } else {
                insts[i + 1]
            },
    )
}

/// The function with the results of the first `n` instructions recorded as
/// defined where they stand.
pub open spec fn results_placed(f: FuncView, b: BlockId, insts: Seq<InstView>, n: int) -> FuncView
    decreases n,
{
    if n <= 0 {
        f
    } else {
        let before = results_placed(f, b, insts, n - 1);
        match insts[n - 1].result {
            Some(v) => emit::placed(before, v, b.0, (n - 1) as usize),
            None => before,
        }
    }
}

/// The function with the update behind the last use of the old pointer.
pub open spec fn update_moved(f: FuncView, u: Update) -> FuncView {
    match move_of(f, u) {
        Some((at, last)) => {
            let insts = inst_moved(f.block(u.header).insts, at as int, last as int);
            results_placed(
                emit::refilled(f, u.header.0, insts),
                u.header,
                insts,
                insts.len() as int,
            )
        },
        None => f,
    }
}

/// The function with the first `n` updates moved.
pub open spec fn updates_moved(f: FuncView, list: Seq<Update>, n: int) -> FuncView
    decreases n,
{
    if n <= 0 {
        f
    } else {
        update_moved(updates_moved(f, list, n - 1), list[n - 1])
    }
}

/// The function with the updates of pointers in headers of loops moved.
pub open spec fn scheduled(f: FuncView) -> FuncView {
    updates_moved(f, updates_of(f), updates_of(f).len() as int)
}

// ---------------------------------------------------------------------------
// Executable functions
// ---------------------------------------------------------------------------

fn recurrence_update_base(kind: &InstKind) -> (r: Option<ValueId>)
    ensures
        r == base_of(kind@),
{
    match kind {
        InstKind::Gep { base, .. } => Some(*base),
        InstKind::Binary { op, lhs, .. } => match op {
            BinaryOp::Iadd => Some(*lhs),
            BinaryOp::Isub => Some(*lhs),
            _ => None,
        },
        _ => None,
    }
}

fn updates_phi(func: &Function, l: &NaturalLoop, phi: ValueId, v: ValueId) -> (r: bool)
    ensures
        r == is_update(func@, l@, phi, v),
{
    match (defining_inst(func, v), defining_block(func, v)) {
        (Some(kind), Some(b)) => recurrence_update_base(kind) == Some(phi) && b == l.header,
        _ => false,
    }
}

/// The updates are in headers of the function, of values of it.
pub open spec fn updates_in(f: FuncView, list: Seq<Update>) -> bool {
    forall|k: int|
        0 <= k < list.len() ==> f.has_block((#[trigger] list[k]).header) && f.has_value(
            list[k].value,
        )
}

fn gather_entries(
    func: &Function,
    l: &NaturalLoop,
    phi: ValueId,
    incomings: &Vec<(BlockId, ValueId)>,
    seen: &mut Vec<bool>,
    list: &mut Vec<Update>,
)
    requires
        func@.has_block(l.header),
        edit::incomings_wf(incomings@, func@.blocks.len(), func@.values.len()),
        old(seen).len() == func@.values.len(),
        updates_in(func@, old(list)@),
    ensures
        (Gathered { seen: final(seen)@, list: final(list)@ }) == entries_gathered(
            func@,
            l@,
            phi,
            incomings@,
            (Gathered { seen: old(seen)@, list: old(list)@ }),
            incomings.len() as int,
        ),
        final(seen).len() == func@.values.len(),
        updates_in(func@, final(list)@),
{
    let ghost f = func@;
    let ghost start = Gathered { seen: seen@, list: list@ };
    let n = incomings.len();
    for k in 0..n
        invariant
            func@ == f,
            f.has_block(l.header),
            n == incomings.len(),
            edit::incomings_wf(incomings@, f.blocks.len(), f.values.len()),
            seen.len() == f.values.len(),
            updates_in(f, list@),
            start == (Gathered { seen: old(seen)@, list: old(list)@ }),
            (Gathered { seen: seen@, list: list@ }) == entries_gathered(
                f,
                l@,
                phi,
                incomings@,
                start,
                k as int,
            ),
    {
        let (pred, v) = incomings[k];
        assert(incomings@[k as int].1.0 < f.values.len());
        if l.contains(pred) && !seen[v.0] {
            seen.set(v.0, true);
            if updates_phi(func, l, phi, v) {
                list.push(Update { header: l.header, phi, value: v });
            }
        }
    }
}

pub fn is_pointer(func: &Function, v: ValueId) -> (r: bool)
    requires
        func@.has_value(v),
    ensures
        r == (func@.value(v).ty is Ptr),
{
    assert(func.values@[v.0 as int]@ == func@.value(v));
    match &func.values[v.0].ty {
        Type::Ptr(_) => true,
        _ => false,
    }
}

fn gather_insts(func: &Function, l: &NaturalLoop, seen: &mut Vec<bool>, list: &mut Vec<Update>)
    requires
        func@.wf(),
        func@.has_block(l.header),
        old(seen).len() == func@.values.len(),
        updates_in(func@, old(list)@),
    ensures
        (Gathered { seen: final(seen)@, list: final(list)@ }) == insts_gathered(
            func@,
            l@,
            func@.block(l@.header).insts,
            (Gathered { seen: old(seen)@, list: old(list)@ }),
            func@.block(l@.header).insts.len() as int,
        ),
        final(seen).len() == func@.values.len(),
        updates_in(func@, final(list)@),
{
    let ghost f = func@;
    let ghost start = Gathered { seen: seen@, list: list@ };
    let ghost insts = f.block(l.header).insts;
    let n = func.blocks[l.header.0].insts.len();
    for i in 0..n
        invariant
            func@ == f,
            f.wf(),
            f.has_block(l.header),
            insts == f.block(l.header).insts,
            n == insts.len(),
            seen.len() == f.values.len(),
            updates_in(f, list@),
            start == (Gathered { seen: old(seen)@, list: old(list)@ }),
            (Gathered { seen: seen@, list: list@ }) == insts_gathered(
                f,
                l@,
                insts,
                start,
                i as int,
            ),
    {
        let inst = &func.blocks[l.header.0].insts[i];
        assert(inst@ == f.inst(l.header, i as int));
        proof {
            query::lemma_inst_wf(f, l.header, i as int);
        }
        if let (Some(phi), InstKind::Phi { incomings }) = (inst.result, &inst.kind) {
            if is_pointer(func, phi) {
                gather_entries(func, l, phi, incomings, seen, list);
            }
        }
    }
}

pub fn unmarked(n: usize) -> (r: Vec<bool>)
    ensures
        r@ == Seq::new(n as nat, |v: int| false),
{
    let mut marks: Vec<bool> = Vec::new();
    for v in 0..n
        invariant
            marks.len() == v,
            forall|j: int| 0 <= j < v ==> !(#[trigger] marks@[j]),
    {
        marks.push(false);
    }
    assert(marks@ =~= Seq::new(n as nat, |v: int| false));
    marks
}

fn gather_updates(func: &Function, list: &Vec<NaturalLoop>) -> (r: Vec<Update>)
    requires
        func@.wf(),
        loops::loops_view(list@) == loops::loops_of(func@),
    ensures
        r@ == updates_of(func@),
        updates_in(func@, r@),
{
    let ghost f = func@;
    let ghost views = loops::loops_of(f);
    assert(func.values.len() == f.values.len());
    let mut seen = unmarked(func.values.len());
    let mut found: Vec<Update> = Vec::new();
    let n = list.len();
    assert(views.len() == n);
    assert(found@ =~= Seq::empty());
    for k in 0..n
        invariant
            func@ == f,
            f.wf(),
            n == list.len(),
            views == loops::loops_of(f),
            views == loops::loops_view(list@),
            views.len() == n,
            seen.len() == f.values.len(),
            updates_in(f, found@),
            (Gathered { seen: seen@, list: found@ }) == loops_gathered(f, views, k as int),
    {
        assert(views[k as int] == list@[k as int]@);
        assert(func.blocks.len() == f.blocks.len());
        proof {
            loops::lemma_listed_loop(f, k as int);
        }
        gather_insts(func, &list[k], &mut seen, &mut found);
    }
    found
}

fn reads(kind: &InstKind, v: ValueId) -> (r: bool)
    ensures
        r == edit::operands(kind@).contains(v),
{
    let list = inst_operands(kind);
    contains_value(&list, v)
}

fn find_last_read(func: &Function, b: BlockId, v: ValueId, skip: usize) -> (r: Option<usize>)
    requires
        func@.has_block(b),
    ensures
        match r {
            Some(i) => i < func@.block(b).insts.len() && last_read(
                func@.block(b).insts,
                v,
                skip as int,
                func@.block(b).insts.len() as int,
            ) == Some(i as int),
            None => last_read(
                func@.block(b).insts,
                v,
                skip as int,
                func@.block(b).insts.len() as int,
            ) is None,
        },
{
    let ghost insts = func@.block(b).insts;
    let mut i = func.blocks[b.0].insts.len();
    while i > 0
        invariant
            func@.has_block(b),
            insts == func@.block(b).insts,
            i <= insts.len(),
            last_read(insts, v, skip as int, insts.len() as int) == last_read(
                insts,
                v,
                skip as int,
                i as int,
            ),
        decreases i,
    {
        i = i - 1;
        let inst = &func.blocks[b.0].insts[i];
        assert(inst@ == insts[i as int]);
        if i != skip && reads(&inst.kind, v) {
            return Some(i);
        }
    }
    None
}

fn find_first_read(func: &Function, b: BlockId, v: ValueId, skip: usize) -> (r: Option<usize>)
    requires
        func@.has_block(b),
    ensures
        match r {
            Some(i) => first_read(func@.block(b).insts, v, skip as int, 0) == Some(i as int),
            None => first_read(func@.block(b).insts, v, skip as int, 0) is None,
        },
{
    let ghost insts = func@.block(b).insts;
    let n = func.blocks[b.0].insts.len();
    for i in 0..n
        invariant
            func@.has_block(b),
            insts == func@.block(b).insts,
            n == insts.len(),
            first_read(insts, v, skip as int, 0) == first_read(insts, v, skip as int, i as int),
    {
        let inst = &func.blocks[b.0].insts[i];
        assert(inst@ == insts[i as int]);
        if i != skip && !matches!(inst.kind, InstKind::Phi { .. }) && reads(&inst.kind, v) {
            return Some(i);
        }
    }
    None
}

fn find_move(func: &Function, u: Update) -> (r: Option<(usize, usize)>)
    requires
        func@.has_block(u.header),
        func@.has_value(u.value),
    ensures
        r == move_of(func@, u),
        r matches Some((at, last)) ==> at < last < func@.block(u.header).insts.len(),
{
    let ghost insts = func@.block(u.header).insts;
    assert(func.values@[u.value.0 as int]@ == func@.value(u.value));
    match func.values[u.value.0].kind {
        ValueKind::Inst(owner, at) => {
            if owner != u.header || at >= func.blocks[u.header.0].insts.len() {
                return None;
            }
            let inst = &func.blocks[u.header.0].insts[at];
            assert(inst@ == insts[at as int]);
            if inst.result != Some(u.value) || recurrence_update_base(&inst.kind) != Some(u.phi) {
                return None;
            }
            let last = find_last_read(func, u.header, u.phi, at)?;
            if last <= at {
                return None;
            }
            match find_first_read(func, u.header, u.value, at) {
                Some(first) => if first <= last {
                    return None;
                },
                None => {},
            }
            Some((at, last))
        },
        _ => None,
    }
}

fn schedule_one_header_update(func: &mut Function, u: Update)
    requires
        old(func)@.wf(),
        old(func)@.has_block(u.header),
        old(func)@.has_value(u.value),
    ensures
        final(func)@ == update_moved(old(func)@, u),
        final(func)@.wf(),
        final(func)@.blocks.len() == old(func)@.blocks.len(),
        final(func)@.values.len() == old(func)@.values.len(),
{
    let ghost f = func@;
    let (at, last) = match find_move(func, u) {
        Some(found) => found,
        None => return ,
    };
    let b = u.header;
    let ghost before = f.block(b).insts;
    let ghost insts = inst_moved(before, at as int, last as int);
    let n = func.blocks[b.0].insts.len();
    let mut list: Vec<Inst> = Vec::new();
    for i in 0..n
        invariant
            func@ == f,
            f.has_block(b),
            before == f.block(b).insts,
            n == before.len(),
            at < last < n,
            insts == inst_moved(before, at as int, last as int),
            list.len() == i,
            forall|j: int| 0 <= j < i ==> (#[trigger] list@[j])@ == insts[j],
    {
        let from = if i < at || i > last {
            i
        } else if i == last {
            at
        } else {
            i + 1
        };
        let inst = &func.blocks[b.0].insts[from];
        assert(inst@ == before[from as int]);
        list.push(inst.clone());
    }
    assert(ir::insts_view(list@) =~= insts);
    let mut results: Vec<Option<ValueId>> = Vec::new();
    for i in 0..n
        invariant
            n == list.len(),
            ir::insts_view(list@) == insts,
            results.len() == i,
            forall|j: int| 0 <= j < i ==> #[trigger] results@[j] == insts[j].result,
    {
        assert(list@[i as int]@ == insts[i as int]);
        results.push(list[i].result);
    }
    refill(func, b.0, list);
    proof {
        reveal(emit::refilled);
        assert forall|i: int| 0 <= i < insts.len() implies edit::inst_wf(
            #[trigger] insts[i],
            f.blocks.len(),
            f.values.len(),
        ) by {
            let from = if i < at || i > last {
                i
            } else if i == last {
                at as int
            } else {
                i + 1
            };
            query::lemma_inst_wf(f, b, from);
        }
        query::lemma_terminator_wf(f, b);
        assert(edit::block_wf(func@.block(b), f.blocks.len(), f.values.len()));
        assert(func@.wf());
    }
    let ghost start = func@;
    for i in 0..n
        invariant
            n == results.len(),
            n == insts.len(),
            func@.wf(),
            func@.has_block(b),
            func@.blocks.len() == f.blocks.len(),
            func@.values.len() == f.values.len(),
            forall|j: int| 0 <= j < n ==> #[trigger] results@[j] == insts[j].result,
            func@ == results_placed(start, b, insts, i as int),
    {
        if let Some(v) = results[i] {
            let ghost prev = func@;
            place(func, v, b.0, i);
            proof {
                reveal(emit::placed);
                assert forall|w: int| 0 <= w < func@.values.len() implies edit::value_wf(
                    #[trigger] func@.values[w],
                    func@.blocks.len(),
                ) by {
                    assert(edit::value_wf(prev.values[w], prev.blocks.len()));
                }
            }
        }
    }
}

/// Moves the updates of pointers in headers of loops behind the last use of the
/// old pointer.
pub fn schedule_header_pointer_updates(func: &mut Function, list: &Vec<NaturalLoop>)
    requires
        old(func)@.wf(),
        loops::loops_view(list@) == loops::loops_of(old(func)@),
    ensures
        final(func)@ == scheduled(old(func)@),
        final(func)@.wf(),
        final(func)@.blocks.len() == old(func)@.blocks.len(),
        final(func)@.values.len() == old(func)@.values.len(),
{
    let ghost f = func@;
    let updates = gather_updates(func, list);
    let n = updates.len();
    for k in 0..n
        invariant
            n == updates.len(),
            updates@ == updates_of(f),
            updates_in(f, updates@),
            func@.wf(),
            func@.blocks.len() == f.blocks.len(),
            func@.values.len() == f.values.len(),
            func@ == updates_moved(f, updates@, k as int),
    {
        assert(f.has_block(updates@[k as int].header));
        schedule_one_header_update(func, updates[k]);
    }
}

} // verus!
