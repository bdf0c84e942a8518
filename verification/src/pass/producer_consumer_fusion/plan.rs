//! Loops that fill two local arrays for a call that multiplies them.
use vstd::prelude::*;

use crate::cfg::{ControlFlowGraph, Dominators};
use crate::edit;
use crate::edit::{inst_operands, terminator_operands};
use crate::ir::{
    BlockId, Const, FuncView, Function, Inst, InstKind, InstView, KindView, Type, ValueId,
};
use crate::loops;
use crate::loops::{LoopInfo, LoopView, NaturalLoop};
use crate::pass::producer_consumer_fusion::consumer;
use crate::pass::producer_consumer_fusion::consumer::{canonical_bound, element, header_induction};
use crate::pass::regional_global_scalar::access;
use crate::patterns::contains_value;
use crate::query;
use crate::query::jump_target;
use crate::util;
use crate::util::defining_inst;

verus! {

/// A function that computes a dot product, and what its sum starts at.
pub struct Consumer {
    pub name: String,
    pub initial: Const,
}

pub struct ConsumerView {
    pub name: Seq<char>,
    pub initial: Const,
}

impl View for Consumer {
    type V = ConsumerView;

    open spec fn view(&self) -> ConsumerView {
        ConsumerView { name: self.name@, initial: self.initial }
    }
}

pub open spec fn consumers_view(list: Seq<Consumer>) -> Seq<ConsumerView> {
    list.map_values(|c: Consumer| c@)
}

/// A store: what it stores, and where it stands.
#[derive(Clone, Copy, PartialEq, Eq, Structural, Debug)]
pub struct Stored {
    pub value: ValueId,
    pub block: BlockId,
    pub index: usize,
}

/// A call, the loop that fills its arrays, and what the loop stores.
pub struct Plan {
    pub call_block: BlockId,
    pub call_index: usize,
    pub call_result: ValueId,
    pub header: BlockId,
    pub preheader: BlockId,
    pub latch: BlockId,
    pub lhs: Stored,
    pub rhs: Stored,
    pub initial: Const,
}

/// What looking at a call says: nothing, that the search ends, or a plan.
pub enum Outcome {
    Skip,
    Stop,
    Found(Plan),
}

// ---------------------------------------------------------------------------
// Mathematical model
// ---------------------------------------------------------------------------

/// What the sum of the function of the name starts at; the last of the first `n`
/// consumers counts.
pub open spec fn initial_for(list: Seq<ConsumerView>, name: Seq<char>, n: int) -> Option<Const>
    decreases n,
{
    if n <= 0 {
        None
    } else if list[n - 1].name == name {
        Some(list[n - 1].initial)
    } else {
        initial_for(list, name, n - 1)
    }
}

/// The value is the address of a local array of floats.
pub open spec fn is_local_array(f: FuncView, v: ValueId) -> bool {
    match util::def_kind(f, v) {
        Some(KindView::Alloca { ty }) => match ty {
            Type::Array { elem, .. } => *elem == Type::F32,
            _ => false,
        },
        _ => false,
    }
}

/// The store of an instruction to the element of the array at the counter.
pub open spec fn stored_at(
    f: FuncView,
    kind: KindView,
    base: ValueId,
    counter: ValueId,
    b: BlockId,
    i: int,
) -> Option<Stored> {
    match kind {
        KindView::Store { ptr, value } => if consumer::is_element(f, ptr, base, counter) {
            Some(Stored { value, block: b, index: i as usize })
        } else {
            None
        },
        _ => None,
    }
}

/// The stores to elements of the array among the first `n` instructions.
pub open spec fn stores_below(
    f: FuncView,
    b: BlockId,
    base: ValueId,
    counter: ValueId,
    n: int,
) -> Seq<Stored>
    decreases n,
{
    if n <= 0 {
        Seq::empty()
    } else {
        let before = stores_below(f, b, base, counter, n - 1);
        match stored_at(f, f.inst(b, n - 1).kind, base, counter, b, n - 1) {
            Some(s) => before.push(s),
            None => before,
        }
    }
}

/// The stores to elements of the array in the first `n` blocks of the list.
pub open spec fn stores_upto(
    f: FuncView,
    blocks: Seq<BlockId>,
    base: ValueId,
    counter: ValueId,
    n: int,
) -> Seq<Stored>
    decreases n,
{
    if n <= 0 {
        Seq::empty()
    } else {
        let b = blocks[n - 1];
        stores_upto(f, blocks, base, counter, n - 1) + stores_below(
            f,
            b,
            base,
            counter,
            f.block(b).insts.len() as int,
        )
    }
}

/// The only store of the loop to elements of the array.
pub open spec fn store_of(f: FuncView, l: LoopView, base: ValueId, counter: ValueId) -> Option<Stored> {
    let list = stores_upto(f, l.blocks, base, counter, l.blocks.len() as int);
    if list.len() == 1 {
        Some(list[0])
    } else {
        None
    }
}

/// The instruction touches no memory, or stores to an element of one of the
/// arrays.
pub open spec fn is_own(
    f: FuncView,
    kind: KindView,
    lhs: ValueId,
    rhs: ValueId,
    counter: ValueId,
) -> bool {
    match kind {
        KindView::Load { .. } => false,
        KindView::Store { ptr, .. } => consumer::is_element(f, ptr, lhs, counter)
            || consumer::is_element(f, ptr, rhs, counter),
        _ => !access::is_opaque(kind),
    }
}

pub open spec fn all_own(
    f: FuncView,
    blocks: Seq<BlockId>,
    lhs: ValueId,
    rhs: ValueId,
    counter: ValueId,
) -> bool {
    forall|b: BlockId, i: int|
        blocks.contains(b) && f.has_inst(b, i) ==> is_own(
            f,
            (#[trigger] f.inst(b, i)).kind,
            lhs,
            rhs,
            counter,
        )
}

/// The instruction uses the array only to address its elements in the loop, or is
/// the call.
pub open spec fn use_fits(
    l: LoopView,
    inst: InstView,
    array: ValueId,
    counter: ValueId,
    is_call: bool,
    b: BlockId,
) -> bool {
    match inst.kind {
        KindView::Gep { base, indices } => if base == array {
            l.has(b) && indices == seq![counter] && inst.result is Some
        } else {
            !edit::operands(inst.kind).contains(array)
        },
        KindView::Call { args, .. } => is_call || !args.contains(array),
        _ => !edit::operands(inst.kind).contains(array),
    }
}

/// The instruction uses the address of an element only to store to it in the
/// loop.
pub open spec fn element_use_fits(l: LoopView, kind: KindView, v: ValueId, b: BlockId) -> bool {
    match kind {
        KindView::Store { ptr, value } => if ptr == v {
            l.has(b) && value != v
        } else {
            !edit::operands(kind).contains(v)
        },
        _ => !edit::operands(kind).contains(v),
    }
}

/// All of a block uses the array as it should, from instruction `i` on.
pub open spec fn block_fits_from(
    f: FuncView,
    l: LoopView,
    array: ValueId,
    counter: ValueId,
    call_block: BlockId,
    call_index: int,
    b: BlockId,
    i: int,
) -> bool
    decreases f.block(b).insts.len() - i,
{
    if i < 0 || i >= f.block(b).insts.len() {
        !edit::terminator_reads(f.terminator(b)).contains(array)
    } else {
        use_fits(l, f.inst(b, i), array, counter, b == call_block && i == call_index, b)
            && block_fits_from(f, l, array, counter, call_block, call_index, b, i + 1)
    }
}

/// All of a block uses the address of an element as it should, from instruction
/// `i` on.
pub open spec fn element_fits_from(f: FuncView, l: LoopView, v: ValueId, b: BlockId, i: int) -> bool
    decreases f.block(b).insts.len() - i,
{
    if i < 0 || i >= f.block(b).insts.len() {
        !edit::terminator_reads(f.terminator(b)).contains(v)
    } else {
        element_use_fits(l, f.inst(b, i).kind, v, b) && element_fits_from(f, l, v, b, i + 1)
    }
}

/// The address of an element is only stored to in the loop.
pub open spec fn element_confined(f: FuncView, l: LoopView, v: ValueId) -> bool {
    forall|b: BlockId| f.has_block(b) ==> #[trigger] element_fits_from(f, l, v, b, 0)
}

/// The addresses of elements of the array among the first `n` instructions.
pub open spec fn elements_below(insts: Seq<InstView>, array: ValueId, n: int) -> Seq<ValueId>
    decreases n,
{
    if n <= 0 {
        Seq::empty()
    } else {
        let before = elements_below(insts, array, n - 1);
        match (insts[n - 1].kind, insts[n - 1].result) {
            (KindView::Gep { base, .. }, Some(v)) => if base == array {
                before.push(v)
            } else {
                before
            },
            _ => before,
        }
    }
}

/// The addresses of elements of the array in the first `n` blocks.
pub open spec fn elements_upto(f: FuncView, array: ValueId, n: int) -> Seq<ValueId>
    decreases n,
{
    if n <= 0 {
        Seq::empty()
    } else {
        let insts = f.blocks[n - 1].insts;
        elements_upto(f, array, n - 1) + elements_below(insts, array, insts.len() as int)
    }
}

pub open spec fn elements_of(f: FuncView, array: ValueId) -> Seq<ValueId> {
    elements_upto(f, array, f.blocks.len() as int)
}

/// The array is only filled by the loop and handed to the call.
pub open spec fn is_confined(
    f: FuncView,
    l: LoopView,
    array: ValueId,
    counter: ValueId,
    call_block: BlockId,
    call_index: int,
) -> bool {
    &&& forall|b: BlockId|
        f.has_block(b) ==> #[trigger] block_fits_from(
            f,
            l,
            array,
            counter,
            call_block,
            call_index,
            b,
            0,
        )
    &&& elements_of(f, array).len() > 0
    &&& forall|k: int|
        0 <= k < elements_of(f, array).len() ==> element_confined(
            f,
            l,
            #[trigger] elements_of(f, array)[k],
        )
}

/// The first loop, from place `k` on, that is left from its header to the block.
pub open spec fn producer_from(list: Seq<LoopView>, b: BlockId, k: int) -> Option<int>
    decreases list.len() - k,
{
    if k < 0 || k >= list.len() {
        None
    } else if list[k].exit_edges == seq![(list[k].header, b)] {
        Some(k)
    } else {
        producer_from(list, b, k + 1)
    }
}

/// The loop fills the arrays of the call.
pub open spec fn filled_by(
    f: FuncView,
    l: LoopView,
    args: Seq<ValueId>,
    initial: Const,
    b: BlockId,
    i: usize,
    result: ValueId,
) -> Outcome {
    match (l.dedicated_preheader, l.unique_latch()) {
        (Some(preheader), Some(latch)) => if l.blocks.len() == 2 && query::jump_of(f, latch)
            == Some(l.header) {
            match consumer::counter_of(f, l) {
                Some(iv) => match consumer::bound_of(f, l, iv.phi) {
                    Some(bound) => match (
                        store_of(f, l, args[0], iv.phi),
                        store_of(f, l, args[1], iv.phi),
                    ) {
                        (Some(lhs), Some(rhs)) => if bound == args[2] && all_own(
                            f,
                            l.blocks,
                            args[0],
                            args[1],
                            iv.phi,
                        ) && is_confined(f, l, args[0], iv.phi, b, i as int) && is_confined(
                            f,
                            l,
                            args[1],
                            iv.phi,
                            b,
                            i as int,
                        ) {
                            Outcome::Found(
                                Plan {
                                    call_block: b,
                                    call_index: i,
                                    call_result: result,
                                    header: l.header,
                                    preheader,
                                    latch,
                                    lhs,
                                    rhs,
                                    initial,
                                },
                            )
                        } else {
                            Outcome::Skip
                        },
                        _ => Outcome::Skip,
                    },
                    None => Outcome::Stop,
                },
                None => Outcome::Skip,
            }
        } else {
            Outcome::Skip
        },
        _ => Outcome::Skip,
    }
}

/// What looking at an instruction says.
pub open spec fn outcome_at(
    f: FuncView,
    list: Seq<LoopView>,
    consumers: Seq<ConsumerView>,
    b: BlockId,
    i: int,
) -> Outcome {
    match (f.inst(b, i).kind, f.inst(b, i).result) {
        (KindView::Call { name, args }, Some(result)) => match initial_for(
            consumers,
            name,
            consumers.len() as int,
        ) {
            Some(initial) => if args.len() == 3 && args[0] != args[1] && is_local_array(f, args[0])
                && is_local_array(f, args[1]) {
                match producer_from(list, b, 0) {
                    Some(k) => filled_by(f, list[k], args, initial, b, i as usize, result),
                    None => Outcome::Skip,
                }
            } else {
                Outcome::Skip
            },
            None => Outcome::Skip,
        },
        _ => Outcome::Skip,
    }
}

/// What looking at a block says, from instruction `i` on.
pub open spec fn outcome_in_block(
    f: FuncView,
    list: Seq<LoopView>,
    consumers: Seq<ConsumerView>,
    b: BlockId,
    i: int,
) -> Outcome
    decreases f.block(b).insts.len() - i,
{
    if i < 0 || i >= f.block(b).insts.len() {
        Outcome::Skip
    } else {
        match outcome_at(f, list, consumers, b, i) {
            Outcome::Skip => outcome_in_block(f, list, consumers, b, i + 1),
            outcome => outcome,
        }
    }
}

/// The first plan, from block `b` on.
pub open spec fn plan_from(
    f: FuncView,
    list: Seq<LoopView>,
    consumers: Seq<ConsumerView>,
    b: int,
) -> Option<Plan>
    decreases f.blocks.len() - b,
{
    if b < 0 || b >= f.blocks.len() {
        None
    } else {
        match outcome_in_block(f, list, consumers, BlockId(b as usize), 0) {
            Outcome::Skip => plan_from(f, list, consumers, b + 1),
            Outcome::Stop => None,
            Outcome::Found(p) => Some(p),
        }
    }
}

/// The first call of a function that can be fused with a loop.
pub open spec fn plan_of(f: FuncView, consumers: Seq<ConsumerView>) -> Option<Plan> {
    plan_from(f, loops::loops_of(f), consumers, 0)
}

// ---------------------------------------------------------------------------
// Executable functions
// ---------------------------------------------------------------------------

fn find_consumer(consumers: &Vec<Consumer>, name: &String) -> (r: Option<Const>)
    ensures
        r == initial_for(consumers_view(consumers@), name@, consumers.len() as int),
{
    let ghost views = consumers_view(consumers@);
    let mut k = consumers.len();
    while k > 0
        invariant
            k <= consumers.len(),
            views == consumers_view(consumers@),
            initial_for(views, name@, consumers.len() as int) == initial_for(
                views,
                name@,
                k as int,
            ),
        decreases k,
    {
        k = k - 1;
        assert(views[k as int] == consumers@[k as int]@);
        if consumers[k].name == *name {
            return Some(consumers[k].initial.clone());
        }
    }
    None
}

fn local_array(func: &Function, v: ValueId) -> (r: bool)
    ensures
        r == is_local_array(func@, v),
{
    match defining_inst(func, v) {
        Some(InstKind::Alloca { ty }) => match ty {
            Type::Array { elem, .. } => (**elem).same(&Type::F32),
            _ => false,
        },
        _ => false,
    }
}

/// The store stands in the function.
pub open spec fn stored_in(f: FuncView, s: Stored) -> bool {
    f.has_inst(s.block, s.index as int)
}

fn unique_indexed_store(func: &Function, l: &NaturalLoop, base: ValueId, counter: ValueId) -> (r:
    Option<Stored>)
    requires
        l@.within(func@.blocks.len()),
    ensures
        r == store_of(func@, l@, base, counter),
        r matches Some(s) ==> stored_in(func@, s),
{
    let ghost f = func@;
    let mut list: Vec<Stored> = Vec::new();
    let n = l.blocks.len();
    for k in 0..n
        invariant
            func@ == f,
            l@.within(f.blocks.len()),
            n == l.blocks.len(),
            list@ == stores_upto(f, l@.blocks, base, counter, k as int),
            forall|j: int| 0 <= j < list.len() ==> stored_in(f, #[trigger] list@[j]),
    {
        let b = l.blocks[k];
        assert(l@.blocks[k as int].0 < f.blocks.len());
        let ghost start = list@;
        let count = func.blocks[b.0].insts.len();
        assert(list@ =~= start + stores_below(f, b, base, counter, 0));
        for i in 0..count
            invariant
                func@ == f,
                f.has_block(b),
                count == f.block(b).insts.len(),
                list@ == start + stores_below(f, b, base, counter, i as int),
                forall|j: int| 0 <= j < list.len() ==> stored_in(f, #[trigger] list@[j]),
        {
            let inst = &func.blocks[b.0].insts[i];
            assert(inst@ == f.inst(b, i as int));
            if let InstKind::Store { ptr, value } = &inst.kind {
                if element(func, *ptr, base, counter) {
                    list.push(Stored { value: *value, block: b, index: i });
                }
            }
            assert(list@ =~= start + stores_below(f, b, base, counter, i + 1));
        }
    }
    if list.len() == 1 {
        assert(stored_in(f, list@[0]));
        Some(list[0])
    } else {
        None
    }
}

fn own(func: &Function, kind: &InstKind, lhs: ValueId, rhs: ValueId, counter: ValueId) -> (r: bool)
    ensures
        r == is_own(func@, kind@, lhs, rhs, counter),
{
    match kind {
        InstKind::Load { .. } => false,
        InstKind::Call { .. } => false,
        InstKind::MemZero { .. } => false,
        InstKind::MemCopy { .. } => false,
        InstKind::Store { ptr, .. } => element(func, *ptr, lhs, counter) || element(
            func,
            *ptr,
            rhs,
            counter,
        ),
        _ => true,
    }
}

fn producer_has_only_local_stores(
    func: &Function,
    blocks: &Vec<BlockId>,
    lhs: ValueId,
    rhs: ValueId,
    counter: ValueId,
) -> (r: bool)
    requires
        forall|k: int| 0 <= k < blocks.len() ==> func@.has_block(#[trigger] blocks@[k]),
    ensures
        r == all_own(func@, blocks@, lhs, rhs, counter),
{
    let ghost f = func@;
    let n = blocks.len();
    for k in 0..n
        invariant
            func@ == f,
            n == blocks.len(),
            forall|k: int| 0 <= k < blocks.len() ==> f.has_block(#[trigger] blocks@[k]),
            forall|b: BlockId, j: int|
                access::seen(f, blocks@, k as int, 0, b, j) ==> is_own(
                    f,
                    (#[trigger] f.inst(b, j)).kind,
                    lhs,
                    rhs,
                    counter,
                ),
    {
        let b = blocks[k];
        assert(f.has_block(blocks@[k as int]));
        let count = func.blocks[b.0].insts.len();
        for i in 0..count
            invariant
                func@ == f,
                k < blocks.len(),
                b == blocks@[k as int],
                f.has_block(b),
                count == f.block(b).insts.len(),
                forall|c: BlockId, j: int|
                    access::seen(f, blocks@, k as int, i as int, c, j) ==> is_own(
                        f,
                        (#[trigger] f.inst(c, j)).kind,
                        lhs,
                        rhs,
                        counter,
                    ),
        {
            let inst = &func.blocks[b.0].insts[i];
            assert(inst@ == f.inst(b, i as int));
            if !own(func, &inst.kind, lhs, rhs, counter) {
                assert(blocks@.contains(b));
                assert(!is_own(f, f.inst(b, i as int).kind, lhs, rhs, counter));
                return false;
            }
            assert forall|c: BlockId, j: int|
                access::seen(f, blocks@, k as int, i + 1, c, j) implies is_own(
                f,
                (#[trigger] f.inst(c, j)).kind,
                lhs,
                rhs,
                counter,
            ) by {
                if !access::seen(f, blocks@, k as int, i as int, c, j) {
                    assert(c == b && j == i);
                }
            }
        }
        assert forall|c: BlockId, j: int| access::seen(f, blocks@, k + 1, 0, c, j) implies is_own(
            f,
            (#[trigger] f.inst(c, j)).kind,
            lhs,
            rhs,
            counter,
        ) by {
            assert(access::seen(f, blocks@, k as int, count as int, c, j));
        }
    }
    assert forall|b: BlockId, i: int| blocks@.contains(b) && f.has_inst(b, i) implies is_own(
        f,
        (#[trigger] f.inst(b, i)).kind,
        lhs,
        rhs,
        counter,
    ) by {
        let m = choose|m: int| 0 <= m < blocks@.len() && blocks@[m] == b;
        assert(blocks@[m] == b);
        assert(access::seen(f, blocks@, n as int, 0, b, i));
    }
    true
}

fn reads_value(kind: &InstKind, v: ValueId) -> (r: bool)
    ensures
        r == edit::operands(kind@).contains(v),
{
    let reads = inst_operands(kind);
    contains_value(&reads, v)
}

fn check_use(
    l: &NaturalLoop,
    inst: &Inst,
    array: ValueId,
    counter: ValueId,
    is_call: bool,
    b: BlockId,
) -> (r: bool)
    ensures
        r == use_fits(l@, inst@, array, counter, is_call, b),
{
    match &inst.kind {
        InstKind::Gep { base, indices } => {
            if *base == array {
                assert(seq![counter].len() == 1 && seq![counter][0] == counter);
                if indices.len() == 1 && indices[0] == counter {
                    assert(indices@ =~= seq![counter]);
                    l.contains(b) && inst.result.is_some()
                } else {
                    false
                }
            } else {
                !reads_value(&inst.kind, array)
            }
        },
        InstKind::Call { args, .. } => is_call || !contains_value(args, array),
        _ => !reads_value(&inst.kind, array),
    }
}

fn check_element_use(l: &NaturalLoop, kind: &InstKind, v: ValueId, b: BlockId) -> (r: bool)
    ensures
        r == element_use_fits(l@, kind@, v, b),
{
    match kind {
        InstKind::Store { ptr, value } => if *ptr == v {
            l.contains(b) && *value != v
        } else {
            !reads_value(kind, v)
        },
        _ => !reads_value(kind, v),
    }
}

fn terminator_reads(func: &Function, b: BlockId, v: ValueId) -> (r: bool)
    requires
        func@.has_block(b),
    ensures
        r == edit::terminator_reads(func@.terminator(b)).contains(v),
{
    assert(func.blocks@[b.0 as int]@ == func@.block(b));
    let reads = terminator_operands(&func.blocks[b.0].terminator);
    contains_value(&reads, v)
}

fn check_block(
    func: &Function,
    l: &NaturalLoop,
    array: ValueId,
    counter: ValueId,
    call_block: BlockId,
    call_index: usize,
    b: BlockId,
) -> (r: bool)
    requires
        func@.has_block(b),
    ensures
        r == block_fits_from(
            func@,
            l@,
            array,
            counter,
            call_block,
            call_index as int,
            b,
            0,
        ),
{
    let ghost f = func@;
    let n = func.blocks[b.0].insts.len();
    for i in 0..n
        invariant
            func@ == f,
            f.has_block(b),
            n == f.block(b).insts.len(),
            block_fits_from(f, l@, array, counter, call_block, call_index as int, b, 0)
                == block_fits_from(
                f,
                l@,
                array,
                counter,
                call_block,
                call_index as int,
                b,
                i as int,
            ),
    {
        let inst = &func.blocks[b.0].insts[i];
        assert(inst@ == f.inst(b, i as int));
        if !check_use(l, inst, array, counter, b == call_block && i == call_index, b) {
            return false;
        }
    }
    !terminator_reads(func, b, array)
}

fn check_element_in_block(func: &Function, l: &NaturalLoop, v: ValueId, b: BlockId) -> (r: bool)
    requires
        func@.has_block(b),
    ensures
        r == element_fits_from(func@, l@, v, b, 0),
{
    let ghost f = func@;
    let n = func.blocks[b.0].insts.len();
    for i in 0..n
        invariant
            func@ == f,
            f.has_block(b),
            n == f.block(b).insts.len(),
            element_fits_from(f, l@, v, b, 0) == element_fits_from(f, l@, v, b, i as int),
    {
        let inst = &func.blocks[b.0].insts[i];
        assert(inst@ == f.inst(b, i as int));
        if !check_element_use(l, &inst.kind, v, b) {
            return false;
        }
    }
    !terminator_reads(func, b, v)
}

fn check_element(func: &Function, l: &NaturalLoop, v: ValueId) -> (r: bool)
    ensures
        r == element_confined(func@, l@, v),
{
    let ghost f = func@;
    let n = func.blocks.len();
    assert(n == f.blocks.len());
    for b in 0..n
        invariant
            func@ == f,
            n == f.blocks.len(),
            forall|c: BlockId| c.0 < b ==> #[trigger] element_fits_from(f, l@, v, c, 0),
    {
        if !check_element_in_block(func, l, v, BlockId(b)) {
            assert(f.has_block(BlockId(b)));
            return false;
        }
        assert forall|c: BlockId| c.0 < b + 1 implies #[trigger] element_fits_from(
            f,
            l@,
            v,
            c,
            0,
        ) by {
            if c.0 == b {
                assert(c == BlockId(b));
            }
        }
    }
    true
}

fn collect_elements(func: &Function, array: ValueId) -> (r: Vec<ValueId>)
    ensures
        r@ == elements_of(func@, array),
{
    let ghost f = func@;
    let mut list: Vec<ValueId> = Vec::new();
    let n = func.blocks.len();
    assert(n == f.blocks.len());
    for b in 0..n
        invariant
            func@ == f,
            n == f.blocks.len(),
            list@ == elements_upto(f, array, b as int),
    {
        let ghost start = list@;
        let ghost insts = f.blocks[b as int].insts;
        let count = func.blocks[b].insts.len();
        assert(count == insts.len());
        assert(list@ =~= start + elements_below(insts, array, 0));
        for i in 0..count
            invariant
                func@ == f,
                b < f.blocks.len(),
                insts == f.blocks[b as int].insts,
                count == insts.len(),
                list@ == start + elements_below(insts, array, i as int),
        {
            let inst = &func.blocks[b].insts[i];
            assert(inst@ == insts[i as int]);
            if let (InstKind::Gep { base, .. }, Some(v)) = (&inst.kind, inst.result) {
                if *base == array {
                    list.push(v);
                }
            }
            assert(list@ =~= start + elements_below(insts, array, i + 1));
        }
    }
    list
}

fn array_is_confined_to_producer_and_call(
    func: &Function,
    l: &NaturalLoop,
    array: ValueId,
    counter: ValueId,
    call_block: BlockId,
    call_index: usize,
) -> (r: bool)
    ensures
        r == is_confined(func@, l@, array, counter, call_block, call_index as int),
{
    let ghost f = func@;
    let n = func.blocks.len();
    assert(n == f.blocks.len());
    for b in 0..n
        invariant
            func@ == f,
            n == f.blocks.len(),
            forall|c: BlockId|
                c.0 < b ==> #[trigger] block_fits_from(
                    f,
                    l@,
                    array,
                    counter,
                    call_block,
                    call_index as int,
                    c,
                    0,
                ),
    {
        if !check_block(func, l, array, counter, call_block, call_index, BlockId(b)) {
            assert(f.has_block(BlockId(b)));
            return false;
        }
        assert forall|c: BlockId| c.0 < b + 1 implies #[trigger] block_fits_from(
            f,
            l@,
            array,
            counter,
            call_block,
            call_index as int,
            c,
            0,
        ) by {
            if c.0 == b {
                assert(c == BlockId(b));
            }
        }
    }
    let list = collect_elements(func, array);
    let m = list.len();
    if m == 0 {
        return false;
    }
    for k in 0..m
        invariant
            func@ == f,
            m == list.len(),
            list@ == elements_of(f, array),
            forall|j: int| 0 <= j < k ==> element_confined(f, l@, #[trigger] list@[j]),
    {
        if !check_element(func, l, list[k]) {
            assert(!element_confined(f, l@, list@[k as int]));
            return false;
        }
    }
    true
}

/// The parts of the plan exist.
pub open spec fn plan_in(f: FuncView, p: Plan) -> bool {
    &&& f.has_inst(p.call_block, p.call_index as int)
    &&& f.has_value(p.call_result)
    &&& f.has_block(p.header)
    &&& f.has_block(p.latch)
    &&& stored_in(f, p.lhs)
    &&& stored_in(f, p.rhs)
}

pub open spec fn outcome_in(f: FuncView, o: Outcome) -> bool {
    o matches Outcome::Found(p) ==> plan_in(f, p)
}

fn match_producer(
    func: &Function,
    l: &NaturalLoop,
    args: &Vec<ValueId>,
    initial: Const,
    b: BlockId,
    i: usize,
    result: ValueId,
) -> (r: Outcome)
    requires
        func@.wf(),
        l@.within(func@.blocks.len()),
        args.len() == 3,
        func@.has_inst(b, i as int),
        func@.has_value(result),
    ensures
        r == filled_by(func@, l@, args@, initial, b, i, result),
        outcome_in(func@, r),
{
    let ghost f = func@;
    let (preheader, latch) = match (l.dedicated_preheader, l.unique_latch()) {
        (Some(preheader), Some(latch)) => (preheader, latch),
        _ => return Outcome::Skip,
    };
    assert(l@.latches[0].0 < f.blocks.len());
    if l.blocks.len() != 2 {
        return Outcome::Skip;
    }
    match jump_target(func, latch) {
        Some(t) => if t != l.header {
            return Outcome::Skip;
        },
        None => return Outcome::Skip,
    }
    let iv = match header_induction(func, l) {
        Some(iv) => iv,
        None => return Outcome::Skip,
    };
    let bound = match canonical_bound(func, l, iv.phi) {
        Some(bound) => bound,
        None => return Outcome::Stop,
    };
    let (lhs, rhs) = match (
        unique_indexed_store(func, l, args[0], iv.phi),
        unique_indexed_store(func, l, args[1], iv.phi),
    ) {
        (Some(lhs), Some(rhs)) => (lhs, rhs),
        _ => return Outcome::Skip,
    };
    assert(forall|k: int| 0 <= k < l.blocks.len() ==> f.has_block(#[trigger] l.blocks@[k])) by {
        assert forall|k: int| 0 <= k < l.blocks.len() implies f.has_block(
            #[trigger] l.blocks@[k],
        ) by {
            assert(l@.blocks[k].0 < f.blocks.len());
        }
    }
    if bound == args[2] && producer_has_only_local_stores(
        func,
        &l.blocks,
        args[0],
        args[1],
        iv.phi,
    ) && array_is_confined_to_producer_and_call(func, l, args[0], iv.phi, b, i)
        && array_is_confined_to_producer_and_call(func, l, args[1], iv.phi, b, i) {
        Outcome::Found(
            Plan {
                call_block: b,
                call_index: i,
                call_result: result,
                header: l.header,
                preheader,
                latch,
                lhs,
                rhs,
                initial,
            },
        )
    } else {
        Outcome::Skip
    }
}

fn find_producer(list: &Vec<NaturalLoop>, b: BlockId) -> (r: Option<usize>)
    ensures
        match r {
            Some(k) => k < list.len() && producer_from(loops::loops_view(list@), b, 0) == Some(
                k as int,
            ),
            None => producer_from(loops::loops_view(list@), b, 0) is None,
        },
{
    let ghost views = loops::loops_view(list@);
    let n = list.len();
    for k in 0..n
        invariant
            n == list.len(),
            views == loops::loops_view(list@),
            producer_from(views, b, 0) == producer_from(views, b, k as int),
    {
        assert(views[k as int] == list@[k as int]@);
        if list[k].exits_only_by(list[k].header, b) {
            return Some(k);
        }
    }
    None
}

fn look_at(
    func: &Function,
    list: &Vec<NaturalLoop>,
    consumers: &Vec<Consumer>,
    b: BlockId,
    i: usize,
) -> (r: Outcome)
    requires
        func@.wf(),
        loops::loops_view(list@) == loops::loops_of(func@),
        func@.has_inst(b, i as int),
    ensures
        r == outcome_at(func@, loops::loops_of(func@), consumers_view(consumers@), b, i as int),
        outcome_in(func@, r),
{
    let ghost f = func@;
    let ghost views = loops::loops_of(f);
    let inst = &func.blocks[b.0].insts[i];
    assert(inst@ == f.inst(b, i as int));
    proof {
        query::lemma_inst_wf(f, b, i as int);
    }
    match (&inst.kind, inst.result) {
        (InstKind::Call { name, args }, Some(result)) => {
            assert(consumers_view(consumers@).len() == consumers.len());
            let initial = match find_consumer(consumers, name) {
                Some(initial) => initial,
                None => return Outcome::Skip,
            };
            if args.len() != 3 || args[0] == args[1] || !local_array(func, args[0])
                || !local_array(func, args[1]) {
                return Outcome::Skip;
            }
            match find_producer(list, b) {
                Some(k) => {
                    assert(views[k as int] == list@[k as int]@);
                    assert(func.blocks.len() == f.blocks.len());
                    proof {
                        loops::lemma_listed_loop(f, k as int);
                    }
                    match_producer(func, &list[k], args, initial, b, i, result)
                },
                None => Outcome::Skip,
            }
        },
        _ => Outcome::Skip,
    }
}

fn look_at_block(
    func: &Function,
    list: &Vec<NaturalLoop>,
    consumers: &Vec<Consumer>,
    b: BlockId,
) -> (r: Outcome)
    requires
        func@.wf(),
        loops::loops_view(list@) == loops::loops_of(func@),
        func@.has_block(b),
    ensures
        r == outcome_in_block(func@, loops::loops_of(func@), consumers_view(consumers@), b, 0),
        outcome_in(func@, r),
{
    let ghost f = func@;
    let ghost views = loops::loops_of(f);
    let ghost known = consumers_view(consumers@);
    let n = func.blocks[b.0].insts.len();
    for i in 0..n
        invariant
            func@ == f,
            f.wf(),
            views == loops::loops_of(f),
            views == loops::loops_view(list@),
            known == consumers_view(consumers@),
            f.has_block(b),
            n == f.block(b).insts.len(),
            outcome_in_block(f, views, known, b, 0) == outcome_in_block(
                f,
                views,
                known,
                b,
                i as int,
            ),
    {
        let outcome = look_at(func, list, consumers, b, i);
        match outcome {
            Outcome::Skip => {},
            _ => return outcome,
        }
    }
    Outcome::Skip
}

pub fn find_fusion(func: &Function, consumers: &Vec<Consumer>) -> (r: Option<Plan>)
    requires
        func@.wf(),
    ensures
        r == plan_of(func@, consumers_view(consumers@)),
        r matches Some(p) ==> plan_in(func@, p),
{
    let ghost f = func@;
    let ghost views = loops::loops_of(f);
    let ghost known = consumers_view(consumers@);
    let graph = ControlFlowGraph::new(func);
    let dom = Dominators::new(func, &graph);
    let info = LoopInfo::new(func, &graph, &dom);
    let list = info.loops();
    let n = func.blocks.len();
    assert(n == f.blocks.len());
    for b in 0..n
        invariant
            func@ == f,
            f.wf(),
            n == f.blocks.len(),
            views == loops::loops_of(f),
            views == loops::loops_view(list@),
            known == consumers_view(consumers@),
            plan_of(f, known) == plan_from(f, views, known, b as int),
    {
        match look_at_block(func, list, consumers, BlockId(b)) {
            Outcome::Skip => {},
            Outcome::Stop => return None,
            Outcome::Found(p) => return Some(p),
        }
    }
    None
}

} // verus!
