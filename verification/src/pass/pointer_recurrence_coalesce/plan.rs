//! Which pointers walk side by side.
use vstd::prelude::*;

use crate::edit;
use crate::edit::{inst_operands, terminator_operands};
use crate::ir::{
    BlockId, FuncView, Function, Inst, InstKind, InstView, KindView, Type, ValueId,
    ValueKind, ValueKindView,
};
use crate::loops;
use crate::loops::{LoopView, NaturalLoop};
use crate::pass::pointer_recurrence_coalesce::address;
use crate::pass::pointer_recurrence_coalesce::address::constant_i32;
use crate::pass::pointer_recurrence_coalesce::types;
use crate::pass::pointer_recurrence_coalesce::types::{
    spend, typed_gep_byte_strides, types_equal_bounded, Budget,
};
use crate::query;
use crate::query::unique_incoming;
use crate::verify;

verus! {

pub const MAX_VALUE_USES: usize = 65536;

pub const MAX_RECURRENCES: usize = 128;

// ---------------------------------------------------------------------------
// Uses
// ---------------------------------------------------------------------------

/// How an instruction uses a value.
#[derive(Clone, Copy, PartialEq, Eq, Structural)]
pub enum UseSite {
    PhiIncoming { phi: Option<ValueId>, pred: BlockId },
    LoadPtr { block: BlockId, index: usize },
    StorePtr { block: BlockId, index: usize },
    GepBase { result: Option<ValueId> },
    Other,
}

/// The values of a list, each with the same kind of use.
pub open spec fn plain_sites(list: Seq<ValueId>) -> Seq<(ValueId, UseSite)> {
    Seq::new(list.len(), |k: int| (list[k], UseSite::Other))
}

/// The uses of an instruction at place `i` of block `b`.
pub open spec fn sites_of(inst: InstView, b: BlockId, i: usize) -> Seq<(ValueId, UseSite)> {
    match inst.kind {
        KindView::Phi { incomings } => Seq::new(
            incomings.len(),
            |k: int|
                (
                    incomings[k].1,
                    UseSite::PhiIncoming { phi: inst.result, pred: incomings[k].0 },
                ),
        ),
        KindView::Load { ptr } => seq![(ptr, UseSite::LoadPtr { block: b, index: i })],
        KindView::Store { ptr, value } => seq![
            (ptr, UseSite::StorePtr { block: b, index: i }),
            (value, UseSite::Other),
        ],
        KindView::Gep { base, indices } => seq![(base, UseSite::GepBase { result: inst.result })]
            + plain_sites(indices),
        kind => plain_sites(edit::operands(kind)),
    }
}

/// The uses of the first `n` instructions of block `b`.
pub open spec fn block_sites(f: FuncView, b: int, n: int) -> Seq<(ValueId, UseSite)>
    decreases n,
{
    if n <= 0 {
        Seq::empty()
    } else {
        block_sites(f, b, n - 1) + sites_of(
            f.blocks[b].insts[n - 1],
            BlockId(b as usize),
            (n - 1) as usize,
        )
    }
}

/// The uses of the first `n` blocks.
pub open spec fn sites_below(f: FuncView, n: int) -> Seq<(ValueId, UseSite)>
    decreases n,
{
    if n <= 0 {
        Seq::empty()
    } else {
        sites_below(f, n - 1) + block_sites(f, n - 1, f.blocks[n - 1].insts.len() as int)
            + plain_sites(edit::terminator_reads(f.blocks[n - 1].terminator))
    }
}

/// All uses.
pub open spec fn sites_in(f: FuncView) -> Seq<(ValueId, UseSite)> {
    sites_below(f, f.blocks.len() as int)
}

/// The uses of a value among the first `n`.
pub open spec fn sites_at(list: Seq<(ValueId, UseSite)>, v: ValueId, n: int) -> Seq<UseSite>
    decreases n,
{
    if n <= 0 {
        Seq::empty()
    } else if list[n - 1].0 == v {
        sites_at(list, v, n - 1).push(list[n - 1].1)
    } else {
        sites_at(list, v, n - 1)
    }
}

/// The uses of a value.
pub open spec fn uses_of(f: FuncView, v: ValueId) -> Seq<UseSite> {
    let list = sites_in(f);
    sites_at(list, v, list.len() as int)
}

fn add_plain(list: &mut Vec<(ValueId, UseSite)>, values: &Vec<ValueId>)
    ensures
        final(list)@ == old(list)@ + plain_sites(values@),
{
    let ghost start = list@;
    let n = values.len();
    for k in 0..n
        invariant
            n == values.len(),
            list@ == start + plain_sites(values@).take(k as int),
    {
        list.push((values[k], UseSite::Other));
        assert(plain_sites(values@).take(k + 1) =~= plain_sites(values@).take(k as int).push(
            plain_sites(values@)[k as int],
        ));
    }
    assert(plain_sites(values@).take(n as int) =~= plain_sites(values@));
}

fn add_sites(list: &mut Vec<(ValueId, UseSite)>, inst: &Inst, b: BlockId, i: usize)
    ensures
        final(list)@ == old(list)@ + sites_of(inst@, b, i),
{
    let ghost start = list@;
    match &inst.kind {
        InstKind::Phi { incomings } => {
            let ghost want = sites_of(inst@, b, i);
            let n = incomings.len();
            for k in 0..n
                invariant
                    n == incomings.len(),
                    want == sites_of(inst@, b, i),
                    inst@.kind == (KindView::Phi { incomings: incomings@ }),
                    list@ == start + want.take(k as int),
            {
                let (pred, v) = incomings[k];
                list.push((v, UseSite::PhiIncoming { phi: inst.result, pred }));
                assert(want.take(k + 1) =~= want.take(k as int).push(want[k as int]));
            }
            assert(want.take(n as int) =~= want);
        },
        InstKind::Load { ptr } => {
            list.push((*ptr, UseSite::LoadPtr { block: b, index: i }));
            assert(list@ =~= start + sites_of(inst@, b, i));
        },
        InstKind::Store { ptr, value } => {
            list.push((*ptr, UseSite::StorePtr { block: b, index: i }));
            list.push((*value, UseSite::Other));
            assert(list@ =~= start + sites_of(inst@, b, i));
        },
        InstKind::Gep { base, indices } => {
            list.push((*base, UseSite::GepBase { result: inst.result }));
            add_plain(list, indices);
            assert(list@ =~= start + sites_of(inst@, b, i));
        },
        kind => {
            let operands = inst_operands(kind);
            add_plain(list, &operands);
        },
    }
}

/// All sites name values that exist.
pub open spec fn sites_wf(list: Seq<(ValueId, UseSite)>, nv: nat) -> bool {
    forall|k: int| 0 <= k < list.len() ==> (#[trigger] list[k]).0.0 < nv
}

proof fn lemma_sites_wf(inst: InstView, b: BlockId, i: usize, nb: nat, nv: nat)
    requires
        edit::inst_wf(inst, nb, nv),
    ensures
        sites_wf(sites_of(inst, b, i), nv),
{
    verify::lemma_kind_wf_operands(inst.kind, nb, nv);
    let list = sites_of(inst, b, i);
    assert forall|k: int| 0 <= k < list.len() implies (#[trigger] list[k]).0.0 < nv by {
        match inst.kind {
            KindView::Phi { incomings } => {
                assert(incomings[k].1.0 < nv);
            },
            KindView::Gep { base, indices } => {
                if k > 0 {
                    assert(indices[k - 1].0 < nv);
                }
            },
            KindView::Load { .. } => {},
            KindView::Store { .. } => {},
            _ => {
                assert(edit::operands(inst.kind)[k].0 < nv);
            },
        }
    }
}

fn flat_uses(func: &Function) -> (r: Vec<(ValueId, UseSite)>)
    requires
        func@.wf(),
    ensures
        r@ == sites_in(func@),
        sites_wf(r@, func@.values.len()),
{
    let ghost f = func@;
    let mut list: Vec<(ValueId, UseSite)> = Vec::new();
    let n = func.blocks.len();
    for b in 0..n
        invariant
            func@ == f,
            f.wf(),
            n == f.blocks.len(),
            list@ == sites_below(f, b as int),
            sites_wf(list@, f.values.len()),
    {
        let ghost start = list@;
        let count = func.blocks[b].insts.len();
        assert(func.blocks@[b as int]@ == f.blocks[b as int]);
        for i in 0..count
            invariant
                func@ == f,
                f.wf(),
                b < f.blocks.len(),
                n == f.blocks.len(),
                count == f.blocks[b as int].insts.len(),
                list@ == start + block_sites(f, b as int, i as int),
                sites_wf(list@, f.values.len()),
        {
            let inst = &func.blocks[b].insts[i];
            assert(inst@ == f.inst(BlockId(b), i as int));
            proof {
                query::lemma_inst_wf(f, BlockId(b), i as int);
                lemma_sites_wf(inst@, BlockId(b), i, f.blocks.len(), f.values.len());
            }
            let ghost before = list@;
            add_sites(&mut list, inst, BlockId(b), i);
            assert(list@ =~= start + block_sites(f, b as int, i + 1));
        }
        let reads = terminator_operands(&func.blocks[b].terminator);
        proof {
            query::lemma_terminator_wf(f, BlockId(b));
        }
        add_plain(&mut list, &reads);
    }
    list
}

/// The table of uses.
pub open spec fn is_table(table: Seq<Vec<UseSite>>, f: FuncView) -> bool {
    &&& table.len() == f.values.len()
    &&& forall|v: int|
        0 <= v < table.len() ==> (#[trigger] table[v])@ == uses_of(f, ValueId(v as usize))
}

/// Whether the function has few uses.
pub fn uses_are_few(func: &Function) -> (r: bool)
    requires
        func@.wf(),
    ensures
        r == (sites_in(func@).len() <= MAX_VALUE_USES),
{
    flat_uses(func).len() <= MAX_VALUE_USES
}

pub fn collect_uses(func: &Function, b: Budget) -> (r: Option<(Vec<Vec<UseSite>>, Budget)>)
    requires
        func@.wf(),
    ensures
        match r {
            Some((table, rest)) => is_table(table@, func@) && sites_in(func@).len()
                <= MAX_VALUE_USES && types::worked(b, sites_in(func@).len()) == Some(rest),
            None => sites_in(func@).len() > MAX_VALUE_USES || types::worked(
                b,
                sites_in(func@).len(),
            ) is None,
        },
{
    let ghost f = func@;
    let list = flat_uses(func);
    let n = list.len();
    if n > MAX_VALUE_USES {
        return None;
    }
    let rest = spend(b, n)?;
    let mut table: Vec<Vec<UseSite>> = Vec::new();
    let size = func.values.len();
    assert(size == f.values.len());
    for v in 0..size
        invariant
            table.len() == v,
            forall|j: int| 0 <= j < v ==> (#[trigger] table@[j])@ == Seq::<UseSite>::empty(),
    {
        let none: Vec<UseSite> = Vec::new();
        table.push(none);
    }
    for k in 0..n
        invariant
            n == list.len(),
            list@ == sites_in(f),
            sites_wf(list@, f.values.len()),
            table.len() == f.values.len(),
            f.values.len() <= usize::MAX,
            forall|v: int|
                0 <= v < table.len() ==> (#[trigger] table@[v])@ == sites_at(
                    list@,
                    ValueId(v as usize),
                    k as int,
                ),
    {
        let (v, site) = list[k];
        assert(list@[k as int].0.0 < f.values.len());
        let ghost before = table@;
        table[v.0].push(site);
        assert(table@ =~= before.update(v.0 as int, table@[v.0 as int]));
        assert forall|w: int| 0 <= w < table.len() implies (#[trigger] table@[w])@ == sites_at(
            list@,
            ValueId(w as usize),
            k + 1,
        ) by {
            assert(before[w]@ == sites_at(list@, ValueId(w as usize), k as int));
        }
    }
    Some((table, rest))
}

// ---------------------------------------------------------------------------
// Recurrences
// ---------------------------------------------------------------------------

/// A pointer that a loop moves by a constant step.
#[derive(Clone, Copy, PartialEq, Eq, Structural)]
pub struct Recurrence {
    pub phi: ValueId,
    pub initial: ValueId,
    pub update: ValueId,
    pub at: usize,
    pub latch: BlockId,
    pub step: i32,
}

/// The operation that defines a value, and where it stands.
pub open spec fn definition(f: FuncView, v: ValueId) -> Option<(BlockId, KindView)> {
    if f.has_value(v) {
        match f.value(v).kind {
            ValueKindView::Inst(b, i) => if f.has_inst(b, i as int) && f.inst(b, i as int).result
                == Some(v) {
                Some((b, f.inst(b, i as int).kind))
            } else {
                None
            },
            _ => None,
        }
    } else {
        None
    }
}

pub open spec fn definition_view(r: Option<(BlockId, &InstKind)>) -> Option<(BlockId, KindView)> {
    match r {
        Some((b, k)) => Some((b, k@)),
        None => None,
    }
}

fn find_definition(func: &Function, v: ValueId) -> (r: Option<(BlockId, &InstKind)>)
    requires
        func@.wf(),
    ensures
        definition_view(r) == definition(func@, v),
        r matches Some((b, k)) ==> edit::kind_wf(k@, func@.blocks.len(), func@.values.len()),
{
    if v.0 >= func.values.len() {
        return None;
    }
    assert(func.values@[v.0 as int]@ == func@.value(v));
    match &func.values[v.0].kind {
        ValueKind::Inst(b, i) => {
            if b.0 < func.blocks.len() && *i < func.blocks[b.0].insts.len() {
                assert(func@.inst(*b, *i as int) == func.blocks@[b.0 as int].insts@[*i as int]@);
                proof {
                    query::lemma_inst_wf(func@, *b, *i as int);
                }
                match func.blocks[b.0].insts[*i].result {
                    Some(r) => if r == v {
                        Some((*b, &func.blocks[b.0].insts[*i].kind))
                    } else {
                        None
                    },
                    None => None,
                }
            } else {
                None
            }
        },
        _ => None,
    }
}

/// The incoming values of a pointer phi of the loop.
pub open spec fn pointer_phi(f: FuncView, l: LoopView, entering: BlockId, latch: BlockId, phi: ValueId) -> Option<
    (ValueId, ValueId),
> {
    if f.value(phi).ty is Ptr {
        match definition(f, phi) {
            Some((b, KindView::Phi { incomings })) => if b == l.header && incomings.len() == 2 {
                match (
                    query::sole_incoming(incomings, entering),
                    query::sole_incoming(incomings, latch),
                ) {
                    (Some(initial), Some(update)) => Some((initial, update)),
                    _ => None,
                }
            } else {
                None
            },
            _ => None,
        }
    } else {
        None
    }
}

/// The single index by which the update moves the pointer.
pub open spec fn moved_by(f: FuncView, latch: BlockId, phi: ValueId, update: ValueId) -> Option<
    ValueId,
> {
    match definition(f, update) {
        Some((b, KindView::Gep { base, indices })) => if b == latch && indices.len() == 1 && base
            == phi && f.value(indices[0]).ty == Type::I32 {
            Some(indices[0])
        } else {
            None
        },
        _ => None,
    }
}

/// Whether both values have the type.
pub open spec fn both_have(f: FuncView, ty: Type, x: ValueId, y: ValueId, b: Budget) -> Option<
    (bool, Budget),
> {
    match types::equal_types(ty, f.value(x).ty, b) {
        None => None,
        Some((false, b1)) => Some((false, b1)),
        Some((true, b1)) => types::equal_types(ty, f.value(y).ty, b1),
    }
}

/// The recurrence of a phi.
#[verifier::opaque]
pub open spec fn recurrence_of(
    f: FuncView,
    l: LoopView,
    at: usize,
    entering: BlockId,
    latch: BlockId,
    phi: ValueId,
    b: Budget,
) -> Option<(Option<Recurrence>, Budget)> {
    match types::worked(b, 1) {
        None => None,
        Some(b1) => match pointer_phi(f, l, entering, latch, phi) {
            None => Some((None, b1)),
            Some((initial, update)) => match both_have(
                f,
                f.value(phi).ty,
                initial,
                update,
                b1,
            ) {
                None => None,
                Some((false, b2)) => Some((None, b2)),
                Some((true, b2)) => match moved_by(f, latch, phi, update) {
                    None => Some((None, b2)),
                    Some(index) => match types::strides_of(f, phi, update, 1, b2) {
                        None => None,
                        Some((None, b3)) => Some((None, b3)),
                        Some((Some(_), b3)) => match address::constant_of(f, index) {
                            Some(step) => if step == 0 {
                                Some((None, b3))
                            } else {
                                Some(
                                    (
                                        Some(
                                            Recurrence { phi, initial, update, at, latch, step },
                                        ),
                                        b3,
                                    ),
                                )
                            },
                            None => Some((None, b3)),
                        },
                    },
                },
            },
        },
    }
}

fn find_pointer_phi(
    func: &Function,
    l: &NaturalLoop,
    entering: BlockId,
    latch: BlockId,
    phi: ValueId,
) -> (r: Option<(ValueId, ValueId)>)
    requires
        func@.wf(),
        func@.has_value(phi),
    ensures
        r == pointer_phi(func@, l@, entering, latch, phi),
        r matches Some((x, y)) ==> func@.has_value(x) && func@.has_value(y),
{
    assert(func.values@[phi.0 as int]@ == func@.value(phi));
    match func.values[phi.0].ty {
        Type::Ptr(_) => {},
        _ => return None,
    }
    let (b, kind) = find_definition(func, phi)?;
    match kind {
        InstKind::Phi { incomings } => {
            if b != l.header || incomings.len() != 2 {
                return None;
            }
            let initial = unique_incoming(incomings, entering)?;
            let update = unique_incoming(incomings, latch)?;
            proof {
                query::lemma_sole_incoming_wf(
                    incomings@,
                    entering,
                    func@.blocks.len(),
                    func@.values.len(),
                );
                query::lemma_sole_incoming_wf(
                    incomings@,
                    latch,
                    func@.blocks.len(),
                    func@.values.len(),
                );
            }
            Some((initial, update))
        },
        _ => None,
    }
}

fn find_moved_by(func: &Function, latch: BlockId, phi: ValueId, update: ValueId) -> (r: Option<
    ValueId,
>)
    requires
        func@.wf(),
    ensures
        r == moved_by(func@, latch, phi, update),
{
    let (b, kind) = find_definition(func, update)?;
    match kind {
        InstKind::Gep { base, indices } => {
            if b != latch || indices.len() != 1 || *base != phi {
                return None;
            }
            assert(indices@[0].0 < func@.values.len());
            let index = indices[0];
            assert(func.values@[index.0 as int]@ == func@.value(index));
            match func.values[index.0].ty {
                Type::I32 => Some(index),
                _ => None,
            }
        },
        _ => None,
    }
}

fn analyze_pointer_recurrence(
    func: &Function,
    l: &NaturalLoop,
    at: usize,
    entering: BlockId,
    latch: BlockId,
    phi: ValueId,
    b: Budget,
) -> (r: Option<(Option<Recurrence>, Budget)>)
    requires
        func@.wf(),
        func@.has_value(phi),
    ensures
        r == recurrence_of(func@, l@, at, entering, latch, phi, b),
        r matches Some((Some(rec), _)) ==> rec.phi == phi && func@.has_value(rec.initial)
            && func@.has_value(rec.update) && rec.at == at,
{
    reveal(recurrence_of);
    let b1 = spend(b, 1)?;
    let (initial, update) = match find_pointer_phi(func, l, entering, latch, phi) {
        Some(p) => p,
        None => return Some((None, b1)),
    };
    assert(func.values@[phi.0 as int]@ == func@.value(phi));
    assert(func.values@[initial.0 as int]@ == func@.value(initial));
    assert(func.values@[update.0 as int]@ == func@.value(update));
    let ty = &func.values[phi.0].ty;
    let (same, b2) = types_equal_bounded(ty, &func.values[initial.0].ty, b1)?;
    if !same {
        return Some((None, b2));
    }
    let (same, b2) = types_equal_bounded(ty, &func.values[update.0].ty, b2)?;
    if !same {
        return Some((None, b2));
    }
    let index = match find_moved_by(func, latch, phi, update) {
        Some(i) => i,
        None => return Some((None, b2)),
    };
    let (strides, b3) = typed_gep_byte_strides(func, phi, update, 1, b2)?;
    if strides.is_none() {
        return Some((None, b3));
    }
    match constant_i32(func, index) {
        Some(step) => if step == 0 {
            Some((None, b3))
        } else {
            Some((Some(Recurrence { phi, initial, update, at, latch, step }), b3))
        },
        None => Some((None, b3)),
    }
}

/// The list with a recurrence added, in the order of the phis, from place `k`
/// on.
pub open spec fn recurrence_added(list: Seq<Recurrence>, r: Recurrence, k: int) -> Seq<Recurrence>
    decreases list.len() - k,
{
    if k < 0 || k >= list.len() {
        list.push(r)
    } else if list[k].phi.0 > r.phi.0 {
        list.insert(k, r)
    } else {
        recurrence_added(list, r, k + 1)
    }
}

/// The recurrences with those of the first `n` instructions of a header.
pub open spec fn recurrences_below(
    f: FuncView,
    l: LoopView,
    at: usize,
    entering: BlockId,
    latch: BlockId,
    list: Seq<Recurrence>,
    b: Budget,
    n: int,
) -> Option<(Seq<Recurrence>, Budget)>
    decreases n,
{
    if n <= 0 {
        Some((list, b))
    } else {
        match recurrences_below(f, l, at, entering, latch, list, b, n - 1) {
            None => None,
            Some((before, b1)) => match f.inst(l.header, n - 1).result {
                None => Some((before, b1)),
                Some(phi) => match recurrence_of(f, l, at, entering, latch, phi, b1) {
                    None => None,
                    Some((None, b2)) => Some((before, b2)),
                    Some((Some(r), b2)) => if before.len() + 1 > MAX_RECURRENCES {
                        None
                    } else {
                        Some((recurrence_added(before, r, 0), b2))
                    },
                },
            },
        }
    }
}

/// The recurrences of the first `n` loops.
pub open spec fn recurrences_of(f: FuncView, list: Seq<LoopView>, b: Budget, n: int) -> Option<
    (Seq<Recurrence>, Budget),
>
    decreases n,
{
    if n <= 0 {
        Some((Seq::empty(), b))
    } else {
        match recurrences_of(f, list, b, n - 1) {
            None => None,
            Some((before, b1)) => {
                let l = list[n - 1];
                match (l.unique_entering_pred, l.unique_latch()) {
                    (Some(entering), Some(latch)) => recurrences_below(
                        f,
                        l,
                        (n - 1) as usize,
                        entering,
                        latch,
                        before,
                        b1,
                        f.block(l.header).insts.len() as int,
                    ),
                    _ => Some((before, b1)),
                }
            },
        }
    }
}

/// The parts of the recurrences exist.
pub open spec fn recurrences_in(f: FuncView, count: nat, list: Seq<Recurrence>) -> bool {
    forall|k: int|
        0 <= k < list.len() ==> recurrence_in(f, count, #[trigger] list[k])
}

pub open spec fn recurrence_in(f: FuncView, count: nat, r: Recurrence) -> bool {
    &&& f.has_value(r.phi)
    &&& f.has_value(r.initial)
    &&& f.has_value(r.update)
    &&& r.at < count
}

fn add_recurrence(list: &mut Vec<Recurrence>, r: Recurrence)
    ensures
        final(list)@ == recurrence_added(old(list)@, r, 0),
        final(list).len() == old(list).len() + 1,
        forall|f: FuncView, count: nat|
            recurrences_in(f, count, old(list)@) && recurrence_in(f, count, r)
                ==> #[trigger] recurrences_in(f, count, final(list)@),
{
    let ghost start = list@;
    let n = list.len();
    for k in 0..n
        invariant
            n == list.len(),
            list@ == start,
            start == old(list)@,
            recurrence_added(start, r, 0) == recurrence_added(start, r, k as int),
    {
        if list[k].phi.0 > r.phi.0 {
            list.insert(k, r);
            return ;
        }
    }
    list.push(r);
}

proof fn lemma_recurrences_stop(
    f: FuncView,
    l: LoopView,
    at: usize,
    entering: BlockId,
    latch: BlockId,
    list: Seq<Recurrence>,
    b: Budget,
    i: int,
    n: int,
)
    requires
        i <= n,
        recurrences_below(f, l, at, entering, latch, list, b, i) is None,
    ensures
        recurrences_below(f, l, at, entering, latch, list, b, n) is None,
    decreases n - i,
{
    if i < n {
        lemma_recurrences_stop(f, l, at, entering, latch, list, b, i, n - 1);
    }
}

fn loop_recurrences(
    func: &Function,
    l: &NaturalLoop,
    at: usize,
    entering: BlockId,
    latch: BlockId,
    list: &mut Vec<Recurrence>,
    b: Budget,
    Ghost(count): Ghost<nat>,
) -> (r: Option<Budget>)
    requires
        func@.wf(),
        l@.within(func@.blocks.len()),
        at < count,
        recurrences_in(func@, count, old(list)@),
        old(list).len() <= MAX_RECURRENCES,
    ensures
        ({
            let want = recurrences_below(
                func@,
                l@,
                at,
                entering,
                latch,
                old(list)@,
                b,
                func@.block(l@.header).insts.len() as int,
            );
            match r {
                Some(rest) => want == Some((final(list)@, rest)),
                None => want is None,
            }
        }),
        recurrences_in(func@, count, final(list)@),
        final(list).len() <= MAX_RECURRENCES,
{
    let ghost f = func@;
    let ghost start = list@;
    let mut budget = b;
    let n = func.blocks[l.header.0].insts.len();
    for i in 0..n
        invariant
            func@ == f,
            f.wf(),
            l@.within(f.blocks.len()),
            n == f.block(l@.header).insts.len(),
            at < count,
            recurrences_in(f, count, list@),
            list.len() <= MAX_RECURRENCES,
            start == old(list)@,
            recurrences_below(f, l@, at, entering, latch, start, b, i as int) == Some(
                (list@, budget),
            ),
    {
        let inst = &func.blocks[l.header.0].insts[i];
        assert(inst@ == f.inst(l@.header, i as int));
        proof {
            query::lemma_inst_wf(f, l@.header, i as int);
        }
        if let Some(phi) = inst.result {
            match analyze_pointer_recurrence(func, l, at, entering, latch, phi, budget) {
                Some((found, rest)) => {
                    budget = rest;
                    if let Some(r) = found {
                        if list.len() >= MAX_RECURRENCES {
                            proof {
                                lemma_recurrences_stop(
                                    f,
                                    l@,
                                    at,
                                    entering,
                                    latch,
                                    start,
                                    b,
                                    i + 1,
                                    n as int,
                                );
                            }
                            return None;
                        }
                        add_recurrence(list, r);
                    }
                },
                None => {
                    proof {
                        lemma_recurrences_stop(
                            f,
                            l@,
                            at,
                            entering,
                            latch,
                            start,
                            b,
                            i + 1,
                            n as int,
                        );
                    }
                    return None;
                },
            }
        }
    }
    Some(budget)
}

proof fn lemma_loop_recurrences_stop(f: FuncView, list: Seq<LoopView>, b: Budget, i: int, n: int)
    requires
        i <= n,
        recurrences_of(f, list, b, i) is None,
    ensures
        recurrences_of(f, list, b, n) is None,
    decreases n - i,
{
    if i < n {
        lemma_loop_recurrences_stop(f, list, b, i, n - 1);
    }
}

pub open spec fn recurrences_view(r: Option<(Vec<Recurrence>, Budget)>) -> Option<
    (Seq<Recurrence>, Budget),
> {
    match r {
        Some((list, b)) => Some((list@, b)),
        None => None,
    }
}

pub fn collect_recurrences(func: &Function, loops_list: &Vec<NaturalLoop>, b: Budget) -> (r: Option<
    (Vec<Recurrence>, Budget),
>)
    requires
        func@.wf(),
        forall|k: int|
            0 <= k < loops_list.len() ==> (#[trigger] loops_list@[k])@.within(func@.blocks.len()),
    ensures
        recurrences_view(r) == recurrences_of(
            func@,
            loops::loops_view(loops_list@),
            b,
            loops_list.len() as int,
        ),
        r matches Some((list, _)) ==> list.len() <= MAX_RECURRENCES && recurrences_in(
            func@,
            loops_list@.len(),
            list@,
        ),
{
    let ghost f = func@;
    let ghost views = loops::loops_view(loops_list@);
    let mut list: Vec<Recurrence> = Vec::new();
    let mut budget = b;
    let n = loops_list.len();
    for k in 0..n
        invariant
            func@ == f,
            f.wf(),
            n == loops_list.len(),
            views == loops::loops_view(loops_list@),
            forall|k: int|
                0 <= k < loops_list.len() ==> (#[trigger] loops_list@[k])@.within(f.blocks.len()),
            list.len() <= MAX_RECURRENCES,
            recurrences_in(f, loops_list@.len(), list@),
            recurrences_of(f, views, b, k as int) == Some((list@, budget)),
    {
        let l = &loops_list[k];
        assert(views[k as int] == l@);
        assert(loops_list@[k as int]@.within(f.blocks.len()));
        if let (Some(entering), Some(latch)) = (l.unique_entering_pred, l.unique_latch()) {
            match loop_recurrences(
                func,
                l,
                k,
                entering,
                latch,
                &mut list,
                budget,
                Ghost(loops_list@.len()),
            ) {
                Some(rest) => {
                    budget = rest;
                },
                None => {
                    proof {
                        lemma_loop_recurrences_stop(f, views, b, k + 1, n as int);
                    }
                    return None;
                },
            }
        }
    }
    Some((list, budget))
}

} // verus!
