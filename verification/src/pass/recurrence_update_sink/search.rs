//! Updates of pointers that can move to the back edges of their loops.
use vstd::prelude::*;

use crate::edit;
use crate::edit::{inst_operands, terminator_operands};
use crate::ir::{
    BlockId, FuncView, Function, Inst, InstKind, InstView, KindView, Type, ValueId,
};
use crate::loops;
use crate::loops::{LoopView, NaturalLoop};
use crate::pass::recurrence_update_sink::schedule;
use crate::pass::recurrence_update_sink::schedule::{is_pointer, unmarked};
use crate::patterns::contains_value;
use crate::query;
use crate::util;
use crate::util::{const_i32, defining_block, defining_inst};

verus! {

pub const MAX_CANDIDATES: usize = 128;

/// The least and greatest offset that an access can add to a pointer.
pub const MIN_OFFSET: i64 = -2048;

pub const MAX_OFFSET: i64 = 2047;

/// An update of a pointer by a constant, and the blocks that lead back to the
/// header.
pub struct Candidate {
    pub header: BlockId,
    pub phi: ValueId,
    pub update: ValueId,
    pub index: ValueId,
    pub ty: Type,
    pub backedges: Vec<BlockId>,
}

pub struct CandidateView {
    pub header: BlockId,
    pub phi: ValueId,
    pub update: ValueId,
    pub index: ValueId,
    pub ty: Type,
    pub backedges: Seq<BlockId>,
}

impl View for Candidate {
    type V = CandidateView;

    open spec fn view(&self) -> CandidateView {
        CandidateView {
            header: self.header,
            phi: self.phi,
            update: self.update,
            index: self.index,
            ty: self.ty,
            backedges: self.backedges@,
        }
    }
}

pub open spec fn candidates_view(list: Seq<Candidate>) -> Seq<CandidateView> {
    list.map_values(|c: Candidate| c@)
}

// ---------------------------------------------------------------------------
// Mathematical model
// ---------------------------------------------------------------------------

/// The entries of a phi, among the first `n`, that come from the loop.
pub open spec fn entries_below(l: LoopView, incomings: Seq<(BlockId, ValueId)>, n: int) -> Seq<
    (BlockId, ValueId),
>
    decreases n,
{
    if n <= 0 {
        Seq::empty()
    } else {
        let before = entries_below(l, incomings, n - 1);
        if l.has(incomings[n - 1].0) {
            before.push(incomings[n - 1])
        } else {
            before
        }
    }
}

pub open spec fn loop_entries(l: LoopView, incomings: Seq<(BlockId, ValueId)>) -> Seq<
    (BlockId, ValueId),
> {
    entries_below(l, incomings, incomings.len() as int)
}

/// The entries take the same value.
pub open spec fn all_take(entries: Seq<(BlockId, ValueId)>, v: ValueId) -> bool {
    forall|k: int| 0 <= k < entries.len() ==> (#[trigger] entries[k]).1 == v
}

/// The one value that a phi takes from the loop.
pub open spec fn update_of(l: LoopView, incomings: Seq<(BlockId, ValueId)>) -> Option<ValueId> {
    let entries = loop_entries(l, incomings);
    if entries.len() > 0 && all_take(entries, entries[0].1) {
        Some(entries[0].1)
    } else {
        None
    }
}

/// One of the entries comes from the block.
pub open spec fn comes_from(entries: Seq<(BlockId, ValueId)>, b: BlockId) -> bool {
    exists|k: int| 0 <= k < entries.len() && (#[trigger] entries[k]).0 == b
}

/// The first `n` blocks of the list that entries come from.
pub open spec fn sources_below(blocks: Seq<BlockId>, entries: Seq<(BlockId, ValueId)>, n: int) -> Seq<
    BlockId,
>
    decreases n,
{
    if n <= 0 {
        Seq::empty()
    } else {
        let before = sources_below(blocks, entries, n - 1);
        if comes_from(entries, blocks[n - 1]) {
            before.push(blocks[n - 1])
        } else {
            before
        }
    }
}

/// The size of a type in bytes, if it is small enough to compute with.
pub open spec fn size_of(ty: Type) -> Option<i64>
    decreases ty,
{
    match ty {
        Type::Void => Some(0i64),
        Type::I1 => Some(4i64),
        Type::I32 => Some(4i64),
        Type::F32 => Some(4i64),
        Type::Ptr(_) => Some(8i64),
        Type::Array { elem, len } => match size_of(*elem) {
            Some(size) => if len <= i64::MAX && size * len <= i64::MAX {
                Some((size * len) as i64)
            } else {
                None
            },
            None => None,
        },
    }
}

/// The offset that an index makes in an array of the type is one that an access
/// can add to a pointer.
pub open spec fn is_small_offset(ty: Type, index: i32) -> bool {
    match ty {
        Type::Ptr(pointee) => match size_of(*pointee) {
            Some(size) => MIN_OFFSET <= index * size <= MAX_OFFSET,
            None => false,
        },
        _ => false,
    }
}

/// The constant index by which an update moves the pointer.
pub open spec fn step_of(f: FuncView, phi: ValueId, update: ValueId) -> Option<ValueId> {
    match util::def_kind(f, update) {
        Some(KindView::Gep { base, indices }) => if base == phi && indices.len() == 1 {
            match util::const_i32_of(f, indices[0]) {
                Some(index) => if is_small_offset(f.value(update).ty, index) {
                    Some(indices[0])
                } else {
                    None
                },
                None => None,
            }
        } else {
            None
        },
        _ => None,
    }
}

/// The instruction loads from or stores to the address.
pub open spec fn is_access(kind: KindView, v: ValueId) -> bool {
    match kind {
        KindView::Load { ptr } => ptr == v,
        KindView::Store { ptr, value } => ptr == v && value != v,
        _ => false,
    }
}

/// The instruction uses the update as an address of an access, or is the phi.
pub open spec fn use_fits(inst: InstView, phi: ValueId, update: ValueId) -> bool {
    match inst.kind {
        KindView::Phi { .. } => !edit::operands(inst.kind).contains(update) || inst.result == Some(
            phi,
        ),
        _ => is_access(inst.kind, update) || !edit::operands(inst.kind).contains(update),
    }
}

pub open spec fn block_fits_from(f: FuncView, phi: ValueId, update: ValueId, b: BlockId, i: int) -> bool
    decreases f.block(b).insts.len() - i,
{
    if i < 0 || i >= f.block(b).insts.len() {
        !edit::terminator_reads(f.terminator(b)).contains(update)
    } else {
        use_fits(f.inst(b, i), phi, update) && block_fits_from(f, phi, update, b, i + 1)
    }
}

/// The block, from instruction `i` on, has an access at the update.
pub open spec fn accessed_from(f: FuncView, update: ValueId, b: BlockId, i: int) -> bool
    decreases f.block(b).insts.len() - i,
{
    if i < 0 || i >= f.block(b).insts.len() {
        false
    } else {
        is_access(f.inst(b, i).kind, update) || accessed_from(f, update, b, i + 1)
    }
}

/// The update is used as an address of accesses, and by the phi alone.
pub open spec fn is_sinkable(f: FuncView, phi: ValueId, update: ValueId) -> bool {
    &&& forall|b: BlockId| f.has_block(b) ==> #[trigger] block_fits_from(f, phi, update, b, 0)
    &&& exists|b: BlockId| f.has_block(b) && #[trigger] accessed_from(f, update, b, 0)
}

/// The phi as one whose update can move.
pub open spec fn candidate_at(
    f: FuncView,
    l: LoopView,
    phi: ValueId,
    incomings: Seq<(BlockId, ValueId)>,
    update: ValueId,
) -> Option<CandidateView> {
    if util::def_block(f, update) == Some(l.header) {
        match step_of(f, phi, update) {
            Some(index) => if is_sinkable(f, phi, update) {
                Some(
                    CandidateView {
                        header: l.header,
                        phi,
                        update,
                        index,
                        ty: f.value(update).ty,
                        backedges: sources_below(
                            l.blocks,
                            loop_entries(l, incomings),
                            l.blocks.len() as int,
                        ),
                    },
                )
            } else {
                None
            },
            None => None,
        }
    } else {
        None
    }
}

/// What has been found: the updates that were looked at, and the candidates.
pub struct Found {
    pub claimed: Seq<bool>,
    pub list: Seq<CandidateView>,
}

/// What is found with one more instruction. The search ends at a number of
/// candidates.
pub open spec fn inst_searched(f: FuncView, l: LoopView, inst: InstView, s: Found) -> Found {
    if s.list.len() >= MAX_CANDIDATES {
        s
    } else {
        match schedule::pointer_phi(f, inst) {
            Some((phi, incomings)) => match update_of(l, incomings) {
                Some(update) => if s.claimed[update.0 as int] {
                    s
                } else {
                    Found {
                        claimed: s.claimed.update(update.0 as int, true),
                        list: match candidate_at(f, l, phi, incomings, update) {
                            Some(c) => s.list.push(c),
                            None => s.list,
                        },
                    }
                },
                None => s,
            },
            None => s,
        }
    }
}

pub open spec fn insts_searched(f: FuncView, l: LoopView, insts: Seq<InstView>, s: Found, n: int) -> Found
    decreases n,
{
    if n <= 0 {
        s
    } else {
        inst_searched(f, l, insts[n - 1], insts_searched(f, l, insts, s, n - 1))
    }
}

pub open spec fn loops_searched(f: FuncView, list: Seq<LoopView>, n: int) -> Found
    decreases n,
{
    if n <= 0 {
        Found { claimed: Seq::new(f.values.len(), |v: int| false), list: Seq::empty() }
    } else {
        let insts = f.block(list[n - 1].header).insts;
        insts_searched(f, list[n - 1], insts, loops_searched(f, list, n - 1), insts.len() as int)
    }
}

/// The candidates of a function with the given loops.
pub open spec fn candidates_of(f: FuncView, list: Seq<LoopView>) -> Seq<CandidateView> {
    loops_searched(f, list, list.len() as int).list
}

// ---------------------------------------------------------------------------
// Executable functions
// ---------------------------------------------------------------------------

/// Entries of blocks of the loop.
fn collect_entries(l: &NaturalLoop, incomings: &Vec<(BlockId, ValueId)>) -> (r: Vec<
    (BlockId, ValueId),
>)
    ensures
        r@ == loop_entries(l@, incomings@),
        forall|k: int|
            0 <= k < r.len() ==> exists|j: int|
                0 <= j < incomings.len() && #[trigger] incomings@[j] == #[trigger] r@[k],
{
    let mut list: Vec<(BlockId, ValueId)> = Vec::new();
    let n = incomings.len();
    for k in 0..n
        invariant
            n == incomings.len(),
            list@ == entries_below(l@, incomings@, k as int),
            forall|k: int|
                0 <= k < list.len() ==> exists|j: int|
                    0 <= j < incomings.len() && #[trigger] incomings@[j] == #[trigger] list@[k],
    {
        let (pred, v) = incomings[k];
        if l.contains(pred) {
            let ghost before = list@;
            list.push((pred, v));
            assert forall|m: int| 0 <= m < list.len() implies exists|j: int|
                0 <= j < incomings.len() && #[trigger] incomings@[j] == #[trigger] list@[m] by {
                if m < before.len() {
                    assert(before[m] == list@[m]);
                } else {
                    assert(incomings@[k as int] == list@[m]);
                }
            }
        }
    }
    list
}

fn find_update(entries: &Vec<(BlockId, ValueId)>) -> (r: Option<ValueId>)
    ensures
        r == (if entries.len() > 0 && all_take(entries@, entries@[0].1) {
            Some(entries@[0].1)
        } else {
            None
        }),
{
    let n = entries.len();
    if n == 0 {
        return None;
    }
    let v = entries[0].1;
    for k in 0..n
        invariant
            n > 0,
            n == entries.len(),
            v == entries@[0].1,
            forall|j: int| 0 <= j < k ==> (#[trigger] entries@[j]).1 == v,
    {
        if entries[k].1 != v {
            assert(entries@[k as int].1 != v);
            return None;
        }
    }
    Some(v)
}

fn has_entry_from(entries: &Vec<(BlockId, ValueId)>, b: BlockId) -> (r: bool)
    ensures
        r == comes_from(entries@, b),
{
    let n = entries.len();
    for k in 0..n
        invariant
            n == entries.len(),
            forall|j: int| 0 <= j < k ==> (#[trigger] entries@[j]).0 != b,
    {
        if entries[k].0 == b {
            assert(entries@[k as int].0 == b);
            return true;
        }
    }
    false
}

fn collect_sources(blocks: &Vec<BlockId>, entries: &Vec<(BlockId, ValueId)>, Ghost(nb): Ghost<nat>) -> (r:
    Vec<BlockId>)
    requires
        forall|k: int| 0 <= k < blocks.len() ==> (#[trigger] blocks@[k]).0 < nb,
    ensures
        r@ == sources_below(blocks@, entries@, blocks.len() as int),
        forall|k: int| 0 <= k < r.len() ==> (#[trigger] r@[k]).0 < nb,
{
    let mut list: Vec<BlockId> = Vec::new();
    let n = blocks.len();
    for k in 0..n
        invariant
            n == blocks.len(),
            forall|k: int| 0 <= k < blocks.len() ==> (#[trigger] blocks@[k]).0 < nb,
            forall|k: int| 0 <= k < list.len() ==> (#[trigger] list@[k]).0 < nb,
            list@ == sources_below(blocks@, entries@, k as int),
    {
        assert(blocks@[k as int].0 < nb);
        if has_entry_from(entries, blocks[k]) {
            list.push(blocks[k]);
        }
    }
    list
}

proof fn lemma_size(ty: Type)
    ensures
        size_of(ty) matches Some(size) ==> size >= 0,
    decreases ty,
{
    if let Type::Array { elem, len } = ty {
        lemma_size(*elem);
        if let Some(size) = size_of(*elem) {
            assert(size * len >= 0) by (nonlinear_arith)
                requires
                    size >= 0,
                    len >= 0,
            ;
        }
    }
}

fn checked_type_size(ty: &Type) -> (r: Option<i64>)
    ensures
        r == size_of(*ty),
    decreases ty,
{
    match ty {
        Type::Void => Some(0),
        Type::I1 => Some(4),
        Type::I32 => Some(4),
        Type::F32 => Some(4),
        Type::Ptr(_) => Some(8),
        Type::Array { elem, len } => {
            let size = checked_type_size(&**elem)?;
            let n = *len;
            proof {
                lemma_size(**elem);
                assert(size * n >= 0) by (nonlinear_arith)
                    requires
                        size >= 0,
                        n >= 0,
                ;
            }
            if n as u64 > i64::MAX as u64 {
                return None;
            }
            size.checked_mul(n as i64)
        },
    }
}

fn constant_offset_is_addressable(ty: &Type, index: i32) -> (r: bool)
    ensures
        r == is_small_offset(*ty, index),
{
    match ty {
        Type::Ptr(pointee) => match checked_type_size(&**pointee) {
            Some(size) => match (index as i64).checked_mul(size) {
                Some(offset) => MIN_OFFSET <= offset && offset <= MAX_OFFSET,
                None => false,
            },
            None => false,
        },
        _ => false,
    }
}

fn find_step(func: &Function, phi: ValueId, update: ValueId) -> (r: Option<ValueId>)
    requires
        func@.has_value(update),
    ensures
        r == step_of(func@, phi, update),
{
    assert(func.values@[update.0 as int]@ == func@.value(update));
    match defining_inst(func, update) {
        Some(InstKind::Gep { base, indices }) => {
            if *base != phi || indices.len() != 1 {
                return None;
            }
            let index = const_i32(func, indices[0])?;
            if constant_offset_is_addressable(&func.values[update.0].ty, index) {
                Some(indices[0])
            } else {
                None
            }
        },
        _ => None,
    }
}

fn accesses(kind: &InstKind, v: ValueId) -> (r: bool)
    ensures
        r == is_access(kind@, v),
{
    match kind {
        InstKind::Load { ptr } => *ptr == v,
        InstKind::Store { ptr, value } => *ptr == v && *value != v,
        _ => false,
    }
}

fn reads(kind: &InstKind, v: ValueId) -> (r: bool)
    ensures
        r == edit::operands(kind@).contains(v),
{
    let list = inst_operands(kind);
    contains_value(&list, v)
}

fn check_use(inst: &Inst, phi: ValueId, update: ValueId) -> (r: bool)
    ensures
        r == use_fits(inst@, phi, update),
{
    match &inst.kind {
        InstKind::Phi { .. } => inst.result == Some(phi) || !reads(&inst.kind, update),
        _ => accesses(&inst.kind, update) || !reads(&inst.kind, update),
    }
}

fn check_block(func: &Function, phi: ValueId, update: ValueId, b: BlockId) -> (r: bool)
    requires
        func@.has_block(b),
    ensures
        r == block_fits_from(func@, phi, update, b, 0),
{
    let ghost f = func@;
    let n = func.blocks[b.0].insts.len();
    for i in 0..n
        invariant
            func@ == f,
            f.has_block(b),
            n == f.block(b).insts.len(),
            block_fits_from(f, phi, update, b, 0) == block_fits_from(f, phi, update, b, i as int),
    {
        let inst = &func.blocks[b.0].insts[i];
        assert(inst@ == f.inst(b, i as int));
        if !check_use(inst, phi, update) {
            return false;
        }
    }
    assert(func.blocks@[b.0 as int]@ == f.block(b));
    let list = terminator_operands(&func.blocks[b.0].terminator);
    !contains_value(&list, update)
}

fn block_accesses(func: &Function, update: ValueId, b: BlockId) -> (r: bool)
    requires
        func@.has_block(b),
    ensures
        r == accessed_from(func@, update, b, 0),
{
    let ghost f = func@;
    let n = func.blocks[b.0].insts.len();
    for i in 0..n
        invariant
            func@ == f,
            f.has_block(b),
            n == f.block(b).insts.len(),
            accessed_from(f, update, b, 0) == accessed_from(f, update, b, i as int),
    {
        let inst = &func.blocks[b.0].insts[i];
        assert(inst@ == f.inst(b, i as int));
        if accesses(&inst.kind, update) {
            return true;
        }
    }
    false
}

fn update_uses_are_sinkable(func: &Function, phi: ValueId, update: ValueId) -> (r: bool)
    ensures
        r == is_sinkable(func@, phi, update),
{
    let ghost f = func@;
    let mut accessed = false;
    let n = func.blocks.len();
    assert(n == f.blocks.len());
    for b in 0..n
        invariant
            func@ == f,
            n == f.blocks.len(),
            forall|c: BlockId| c.0 < b ==> #[trigger] block_fits_from(f, phi, update, c, 0),
            accessed <==> exists|c: BlockId| c.0 < b && #[trigger] accessed_from(f, update, c, 0),
    {
        let id = BlockId(b);
        if !check_block(func, phi, update, id) {
            assert(f.has_block(id));
            return false;
        }
        let ghost before = accessed;
        if block_accesses(func, update, id) {
            accessed = true;
        }
        assert forall|c: BlockId| c.0 < b + 1 implies #[trigger] block_fits_from(
            f,
            phi,
            update,
            c,
            0,
        ) by {
            if c.0 == b {
                assert(c == id);
            }
        }
        proof {
            if accessed && !before {
                assert(id.0 < b + 1 && accessed_from(f, update, id, 0));
            }
            if exists|c: BlockId| c.0 < b + 1 && #[trigger] accessed_from(f, update, c, 0) {
                let c = choose|c: BlockId|
                    c.0 < b + 1 && #[trigger] accessed_from(f, update, c, 0);
                if c.0 == b {
                    assert(c == id);
                }
            }
        }
    }
    accessed
}

/// The parts of the candidate exist.
pub open spec fn candidate_in(nb: nat, nv: nat, c: CandidateView) -> bool {
    &&& c.header.0 < nb
    &&& c.phi.0 < nv
    &&& forall|k: int| 0 <= k < c.backedges.len() ==> (#[trigger] c.backedges[k]).0 < nb
}

pub open spec fn candidate_view(r: Option<Candidate>) -> Option<CandidateView> {
    match r {
        Some(c) => Some(c@),
        None => None,
    }
}

fn match_candidate(
    func: &Function,
    l: &NaturalLoop,
    phi: ValueId,
    entries: &Vec<(BlockId, ValueId)>,
    update: ValueId,
    Ghost(incomings): Ghost<Seq<(BlockId, ValueId)>>,
) -> (r: Option<Candidate>)
    requires
        l@.within(func@.blocks.len()),
        func@.has_value(phi),
        func@.has_value(update),
        entries@ == loop_entries(l@, incomings),
    ensures
        candidate_view(r) == candidate_at(func@, l@, phi, incomings, update),
        r matches Some(c) ==> candidate_in(func@.blocks.len(), func@.values.len(), c@),
{
    let b = defining_block(func, update)?;
    if b != l.header {
        return None;
    }
    let index = find_step(func, phi, update)?;
    if !update_uses_are_sinkable(func, phi, update) {
        return None;
    }
    assert(func.values@[update.0 as int]@ == func@.value(update));
    let backedges = collect_sources(&l.blocks, entries, Ghost(func@.blocks.len()));
    Some(
        Candidate {
            header: l.header,
            phi,
            update,
            index,
            ty: func.values[update.0].ty.clone(),
            backedges,
        },
    )
}

pub open spec fn all_in(nb: nat, nv: nat, list: Seq<Candidate>) -> bool {
    forall|k: int| 0 <= k < list.len() ==> candidate_in(nb, nv, (#[trigger] list[k])@)
}

fn search_inst(
    func: &Function,
    l: &NaturalLoop,
    inst: &Inst,
    claimed: &mut Vec<bool>,
    list: &mut Vec<Candidate>,
)
    requires
        edit::inst_wf(inst@, func@.blocks.len(), func@.values.len()),
        l@.within(func@.blocks.len()),
        old(claimed).len() == func@.values.len(),
        all_in(func@.blocks.len(), func@.values.len(), old(list)@),
    ensures
        (Found { claimed: final(claimed)@, list: candidates_view(final(list)@) })
            == inst_searched(
            func@,
            l@,
            inst@,
            (Found { claimed: old(claimed)@, list: candidates_view(old(list)@) }),
        ),
        final(claimed).len() == func@.values.len(),
        all_in(func@.blocks.len(), func@.values.len(), final(list)@),
{
    assert(candidates_view(list@).len() == list.len());
    if list.len() >= MAX_CANDIDATES {
        return;
    }
    if let (Some(phi), InstKind::Phi { incomings }) = (inst.result, &inst.kind) {
        if is_pointer(func, phi) {
            let entries = collect_entries(l, incomings);
            if let Some(update) = find_update(&entries) {
                assert(update.0 < func@.values.len()) by {
                    let j = choose|j: int|
                        0 <= j < incomings.len() && #[trigger] incomings@[j] == entries@[0];
                    assert(incomings@[j].1.0 < func@.values.len());
                }
                if !claimed[update.0] {
                    claimed.set(update.0, true);
                    if let Some(c) = match_candidate(
                        func,
                        l,
                        phi,
                        &entries,
                        update,
                        Ghost(incomings@),
                    ) {
                        let ghost before = list@;
                        list.push(c);
                        assert(candidates_view(list@) =~= candidates_view(before).push(c@));
                    }
                }
            }
        }
    }
}

fn search_loop(
    func: &Function,
    l: &NaturalLoop,
    claimed: &mut Vec<bool>,
    list: &mut Vec<Candidate>,
)
    requires
        func@.wf(),
        l@.within(func@.blocks.len()),
        old(claimed).len() == func@.values.len(),
        all_in(func@.blocks.len(), func@.values.len(), old(list)@),
    ensures
        (Found { claimed: final(claimed)@, list: candidates_view(final(list)@) })
            == insts_searched(
            func@,
            l@,
            func@.block(l@.header).insts,
            (Found { claimed: old(claimed)@, list: candidates_view(old(list)@) }),
            func@.block(l@.header).insts.len() as int,
        ),
        final(claimed).len() == func@.values.len(),
        all_in(func@.blocks.len(), func@.values.len(), final(list)@),
{
    let ghost f = func@;
    let ghost start = Found { claimed: claimed@, list: candidates_view(list@) };
    let ghost insts = f.block(l.header).insts;
    let n = func.blocks[l.header.0].insts.len();
    for i in 0..n
        invariant
            func@ == f,
            f.wf(),
            l@.within(f.blocks.len()),
            insts == f.block(l@.header).insts,
            n == insts.len(),
            claimed.len() == f.values.len(),
            all_in(f.blocks.len(), f.values.len(), list@),
            start == (Found { claimed: old(claimed)@, list: candidates_view(old(list)@) }),
            (Found { claimed: claimed@, list: candidates_view(list@) }) == insts_searched(
                f,
                l@,
                insts,
                start,
                i as int,
            ),
    {
        let inst = &func.blocks[l.header.0].insts[i];
        assert(inst@ == f.inst(l.header, i as int));
        proof {
            query::lemma_inst_wf(f, l.header, i as int);
        }
        search_inst(func, l, inst, claimed, list);
    }
}

/// Finds the updates that can move. The loops are those of a function with the
/// same edges.
pub fn find_candidates(func: &Function, list: &Vec<NaturalLoop>) -> (r: Vec<Candidate>)
    requires
        func@.wf(),
        forall|k: int| 0 <= k < list.len() ==> (#[trigger] list@[k])@.within(func@.blocks.len()),
    ensures
        candidates_view(r@) == candidates_of(func@, loops::loops_view(list@)),
        all_in(func@.blocks.len(), func@.values.len(), r@),
{
    let ghost f = func@;
    let ghost views = loops::loops_view(list@);
    assert(func.values.len() == f.values.len());
    let mut claimed = unmarked(func.values.len());
    let mut found: Vec<Candidate> = Vec::new();
    let n = list.len();
    assert(candidates_view(found@) =~= Seq::empty());
    for k in 0..n
        invariant
            func@ == f,
            f.wf(),
            n == list.len(),
            views == loops::loops_view(list@),
            forall|k: int|
                0 <= k < list.len() ==> (#[trigger] list@[k])@.within(f.blocks.len()),
            claimed.len() == f.values.len(),
            all_in(f.blocks.len(), f.values.len(), found@),
            (Found { claimed: claimed@, list: candidates_view(found@) }) == loops_searched(
                f,
                views,
                k as int,
            ),
    {
        assert(views[k as int] == list@[k as int]@);
        search_loop(func, &list[k], &mut claimed, &mut found);
    }
    found
}

} // verus!
