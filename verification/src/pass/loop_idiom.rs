//! Loops that run over the elements of an array, one by one.
use vstd::prelude::*;

use crate::edit;
use crate::edit::{inst_operands, terminator_operands};
use crate::ir;
use crate::ir::{
    BlockId, CompareOp, Const, FuncView, Function, Inst, InstKind, InstView, KindView, Type,
    ValueId, ValueKind, ValueKindView,
};
use crate::loops;
use crate::loops::{analyze_i32_induction, InductionVariable, LoopView, NaturalLoop};
use crate::patterns;
use crate::patterns::{as_branch, contains_value};
use crate::query;
use crate::query::{defining_inst_kind, jump_target};

verus! {

pub const MAX_BLOCKS: usize = 1024;

pub const MAX_VALUES: usize = 16384;

/// The size of a scalar.
pub const ELEMENT_BYTES: usize = 4;

/// A loop of a header and a body that counts from zero up to a bound, one by
/// one.
#[derive(Clone, Copy, PartialEq, Eq, Structural)]
pub struct Frame {
    pub preheader: BlockId,
    pub header: BlockId,
    pub body: BlockId,
    pub exit: BlockId,
    pub condition: ValueId,
    pub bound: ValueId,
    pub induction: InductionVariable,
}

// ---------------------------------------------------------------------------
// Mathematical model
// ---------------------------------------------------------------------------

/// The function is small enough to be looked at.
pub open spec fn is_small(f: FuncView) -> bool {
    f.blocks.len() <= MAX_BLOCKS && f.values.len() <= MAX_VALUES
}

/// The integer that is written out as a constant.
pub open spec fn literal_of(f: FuncView, v: ValueId) -> Option<i32> {
    if f.has_value(v) {
        match f.value(v).kind {
            ValueKindView::Const(Const::Int(i)) => Some(i),
            _ => None,
        }
    } else {
        None
    }
}

/// The value does not change in the loop.
pub open spec fn is_invariant(f: FuncView, l: LoopView, v: ValueId) -> bool {
    match f.value(v).kind {
        ValueKindView::Inst(b, _) => !l.has(b),
        _ => true,
    }
}

/// The type is that of a scalar.
pub open spec fn is_scalar(ty: Type) -> bool {
    ty is I1 || ty is I32 || ty is F32
}

/// The comparison "less than" that a value is.
pub open spec fn less_of(f: FuncView, v: ValueId) -> Option<(ValueId, ValueId)> {
    match query::definition(f, v) {
        Some(KindView::ICompare { op: CompareOp::Lt, lhs, rhs }) => Some((lhs, rhs)),
        _ => None,
    }
}

/// The blocks are those of a loop of a header and a body.
pub open spec fn blocks_fit(f: FuncView, l: LoopView, body: BlockId, exit: BlockId) -> bool {
    &&& l.header != body
    &&& l.blocks.len() == 2
    &&& l.exit_edges == seq![(l.header, exit)]
    &&& query::jump_of(f, body) == Some(l.header)
}

/// The loop as one over the elements of an array.
pub open spec fn frame_of(f: FuncView, l: LoopView) -> Option<Frame> {
    match (l.unique_latch(), l.unique_exit(), l.dedicated_preheader) {
        (Some(body), Some(exit), Some(preheader)) => if blocks_fit(f, l, body, exit) {
            match patterns::branch_of(f, l.header) {
                Some((condition, t, e)) => if t == body && e == exit {
                    match less_of(f, condition) {
                        Some((counter, bound)) => match loops::induction_of(f, l, counter) {
                            Some(induction) => if is_invariant(f, l, bound) && induction.step == 1
                                && literal_of(f, induction.initial) == Some(0i32) {
                                Some(
                                    Frame {
                                        preheader,
                                        header: l.header,
                                        body,
                                        exit,
                                        condition,
                                        bound,
                                        induction,
                                    },
                                )
                            } else {
                                None
                            },
                            None => None,
                        },
                        None => None,
                    }
                } else {
                    None
                },
                None => None,
            }
        } else {
            None
        },
        _ => None,
    }
}

/// The instruction reads the value.
pub open spec fn block_reads(f: FuncView, b: BlockId, v: ValueId) -> bool {
    ||| exists|i: int|
        0 <= i < f.block(b).insts.len() && edit::operands(
            (#[trigger] f.inst(b, i)).kind,
        ).contains(v)
    ||| edit::terminator_reads(f.terminator(b)).contains(v)
}

/// A block outside of the loop reads the value.
pub open spec fn is_read_outside(f: FuncView, l: LoopView, v: ValueId) -> bool {
    exists|b: BlockId| f.has_block(b) && !l.has(b) && #[trigger] block_reads(f, b, v)
}

/// A kind of instruction.
#[derive(Clone, Copy, PartialEq, Eq, Structural)]
pub enum What {
    Phi,
    Comparison,
    Element,
    Binary,
    Any,
}

pub open spec fn kind_is(kind: KindView, what: What) -> bool {
    match what {
        What::Phi => kind is Phi,
        What::Comparison => kind is ICompare,
        What::Element => kind is Gep,
        What::Binary => kind is Binary,
        What::Any => !(kind is Nop),
    }
}

/// An instruction of the block, of the given kind, defines the value.
pub open spec fn defines(f: FuncView, b: BlockId, v: ValueId, what: What) -> bool {
    exists|i: int|
        0 <= i < f.block(b).insts.len() && (#[trigger] f.inst(b, i)).result == Some(v) && kind_is(
            f.inst(b, i).kind,
            what,
        )
}

/// The first store, from place `k` on: where it stands, and what it stores
/// where.
pub open spec fn store_from(insts: Seq<InstView>, k: int) -> Option<(usize, ValueId, ValueId)>
    decreases insts.len() - k,
{
    if k < 0 || k >= insts.len() {
        None
    } else {
        match insts[k].kind {
            KindView::Store { ptr, value } => Some((k as usize, ptr, value)),
            _ => store_from(insts, k + 1),
        }
    }
}

/// The first instruction, from place `k` on, whose result is the value.
pub open spec fn first_defining(insts: Seq<InstView>, v: ValueId, k: int) -> Option<int>
    decreases insts.len() - k,
{
    if k < 0 || k >= insts.len() {
        None
    } else if insts[k].result == Some(v) {
        Some(k)
    } else {
        first_defining(insts, v, k + 1)
    }
}

/// The instructions with the comparison that is the condition starting at the
/// given value.
pub open spec fn condition_set(insts: Seq<InstView>, condition: ValueId, initial: ValueId) -> Seq<
    InstView,
> {
    match first_defining(insts, condition, 0) {
        Some(i) => match insts[i].kind {
            KindView::ICompare { op, rhs, .. } => insts.update(
                i,
                InstView {
                    result: insts[i].result,
                    kind: KindView::ICompare { op, lhs: initial, rhs },
                },
            ),
            _ => insts,
        },
        None => insts,
    }
}

// ---------------------------------------------------------------------------
// Executable functions
// ---------------------------------------------------------------------------

pub fn is_small_function(func: &Function) -> (r: bool)
    ensures
        r == is_small(func@),
{
    assert(func.blocks.len() == func@.blocks.len());
    assert(func.values.len() == func@.values.len());
    func.blocks.len() <= MAX_BLOCKS && func.values.len() <= MAX_VALUES
}

pub fn int_literal(func: &Function, v: ValueId) -> (r: Option<i32>)
    ensures
        r == literal_of(func@, v),
{
    if v.0 < func.values.len() {
        assert(func.values@[v.0 as int]@ == func@.value(v));
        match func.values[v.0].kind {
            ValueKind::Const(Const::Int(i)) => Some(i),
            _ => None,
        }
    } else {
        None
    }
}

pub fn is_loop_invariant(func: &Function, l: &NaturalLoop, v: ValueId) -> (r: bool)
    requires
        func@.has_value(v),
    ensures
        r == is_invariant(func@, l@, v),
{
    assert(func.values@[v.0 as int]@ == func@.value(v));
    match func.values[v.0].kind {
        ValueKind::Inst(b, _) => !l.contains(b),
        _ => true,
    }
}

pub fn scalar(ty: &Type) -> (r: bool)
    ensures
        r == is_scalar(*ty),
{
    match ty {
        Type::I1 => true,
        Type::I32 => true,
        Type::F32 => true,
        _ => false,
    }
}

fn as_less(func: &Function, v: ValueId) -> (r: Option<(ValueId, ValueId)>)
    requires
        func@.wf(),
    ensures
        r == less_of(func@, v),
        r matches Some((x, y)) ==> func@.has_value(x) && func@.has_value(y),
{
    proof {
        query::lemma_definition_wf(func@, v);
    }
    match defining_inst_kind(func, v) {
        Some(InstKind::ICompare { op, lhs, rhs }) => match op {
            CompareOp::Lt => Some((*lhs, *rhs)),
            _ => None,
        },
        _ => None,
    }
}

pub open spec fn frame_in(f: FuncView, fr: Frame) -> bool {
    &&& f.has_block(fr.preheader)
    &&& f.has_block(fr.header)
    &&& f.has_block(fr.body)
    &&& f.has_block(fr.exit)
    &&& f.has_value(fr.bound)
    &&& f.has_value(fr.induction.phi)
    &&& f.has_value(fr.induction.initial)
    &&& f.has_value(fr.induction.next)
}

pub fn find_frame(func: &Function, l: &NaturalLoop) -> (r: Option<Frame>)
    requires
        func@.wf(),
        l@.within(func@.blocks.len()),
    ensures
        r == frame_of(func@, l@),
        r matches Some(fr) ==> frame_in(func@, fr),
{
    let body = l.unique_latch()?;
    let exit = l.unique_exit()?;
    let preheader = l.dedicated_preheader?;
    if l.header == body || l.blocks.len() != 2 || !l.exits_only_by(l.header, exit) {
        return None;
    }
    match jump_target(func, body) {
        Some(t) => if t != l.header {
            return None;
        },
        None => return None,
    }
    let (condition, t, e) = as_branch(func, l.header)?;
    if t != body || e != exit {
        return None;
    }
    let (counter, bound) = as_less(func, condition)?;
    let induction = analyze_i32_induction(func, l, counter)?;
    proof {
        loops::lemma_induction_wf(func@, l@, counter);
    }
    if !is_loop_invariant(func, l, bound) || induction.step != 1 {
        return None;
    }
    match int_literal(func, induction.initial) {
        Some(i) => if i != 0 {
            return None;
        },
        None => return None,
    }
    Some(Frame { preheader, header: l.header, body, exit, condition, bound, induction })
}

fn is_kind(kind: &InstKind, what: What) -> (r: bool)
    ensures
        r == kind_is(kind@, what),
{
    match what {
        What::Phi => matches!(kind, InstKind::Phi { .. }),
        What::Comparison => matches!(kind, InstKind::ICompare { .. }),
        What::Element => matches!(kind, InstKind::Gep { .. }),
        What::Binary => matches!(kind, InstKind::Binary { .. }),
        What::Any => !matches!(kind, InstKind::Nop),
    }
}

pub fn defines_value(func: &Function, b: BlockId, v: ValueId, what: What) -> (r: bool)
    requires
        func@.has_block(b),
    ensures
        r == defines(func@, b, v, what),
{
    let n = func.blocks[b.0].insts.len();
    for i in 0..n
        invariant
            func@.has_block(b),
            n == func@.block(b).insts.len(),
            forall|j: int|
                0 <= j < i ==> !((#[trigger] func@.inst(b, j)).result == Some(v) && kind_is(
                    func@.inst(b, j).kind,
                    what,
                )),
    {
        let inst = &func.blocks[b.0].insts[i];
        assert(inst@ == func@.inst(b, i as int));
        let named = match inst.result {
            Some(r) => r == v,
            None => false,
        };
        if named && is_kind(&inst.kind, what) {
            return true;
        }
    }
    false
}

pub fn first_store(func: &Function, b: BlockId) -> (r: Option<(usize, ValueId, ValueId)>)
    requires
        func@.wf(),
        func@.has_block(b),
    ensures
        r == store_from(func@.block(b).insts, 0),
        match r {
            Some((i, ptr, value)) => i < func@.block(b).insts.len() && func@.inst(b, i as int).kind
                == (KindView::Store { ptr, value }) && func@.has_value(ptr) && func@.has_value(
                value,
            ),
            None => true,
        },
{
    let ghost insts = func@.block(b).insts;
    let n = func.blocks[b.0].insts.len();
    for i in 0..n
        invariant
            func@.wf(),
            func@.has_block(b),
            insts == func@.block(b).insts,
            n == insts.len(),
            store_from(insts, 0) == store_from(insts, i as int),
    {
        let inst = &func.blocks[b.0].insts[i];
        assert(inst@ == func@.inst(b, i as int));
        proof {
            query::lemma_inst_wf(func@, b, i as int);
        }
        if let InstKind::Store { ptr, value } = &inst.kind {
            return Some((i, *ptr, *value));
        }
    }
    None
}

fn reads_in_block(func: &Function, b: BlockId, v: ValueId) -> (r: bool)
    requires
        func@.has_block(b),
    ensures
        r == block_reads(func@, b, v),
{
    let n = func.blocks[b.0].insts.len();
    assert(func.blocks@[b.0 as int]@ == func@.block(b));
    for i in 0..n
        invariant
            func@.has_block(b),
            n == func@.block(b).insts.len(),
            func.blocks@[b.0 as int]@ == func@.block(b),
            forall|j: int|
                0 <= j < i ==> !edit::operands((#[trigger] func@.inst(b, j)).kind).contains(v),
    {
        let inst = &func.blocks[b.0].insts[i];
        assert(inst@ == func@.inst(b, i as int));
        let list = inst_operands(&inst.kind);
        if contains_value(&list, v) {
            return true;
        }
    }
    let list = terminator_operands(&func.blocks[b.0].terminator);
    contains_value(&list, v)
}

pub fn used_outside_loop(func: &Function, l: &NaturalLoop, v: ValueId) -> (r: bool)
    ensures
        r == is_read_outside(func@, l@, v),
{
    let n = func.blocks.len();
    assert(n == func@.blocks.len());
    for b in 0..n
        invariant
            n == func@.blocks.len(),
            forall|c: BlockId|
                c.0 < b && !l@.has(c) ==> !(#[trigger] block_reads(func@, c, v)),
    {
        if !l.contains(BlockId(b)) && reads_in_block(func, BlockId(b), v) {
            return true;
        }
    }
    false
}

/// Sets where the condition of a loop starts.
pub fn set_condition(insts: &mut Vec<Inst>, condition: ValueId, initial: ValueId)
    ensures
        ir::insts_view(final(insts)@) == condition_set(
            ir::insts_view(old(insts)@),
            condition,
            initial,
        ),
{
    let ghost views = ir::insts_view(insts@);
    let n = insts.len();
    for k in 0..n
        invariant
            n == insts.len(),
            views == ir::insts_view(insts@),
            views == ir::insts_view(old(insts)@),
            first_defining(views, condition, 0) == first_defining(views, condition, k as int),
    {
        assert(views[k as int] == insts@[k as int]@);
        let found = match insts[k].result {
            Some(r) => r == condition,
            None => false,
        };
        if found {
            let result = insts[k].result;
            let changed = match &insts[k].kind {
                InstKind::ICompare { op, lhs: _, rhs } => Some((*op, *rhs)),
                _ => None,
            };
            if let Some((op, rhs)) = changed {
                insts.set(
                    k,
                    Inst { result, kind: InstKind::ICompare { op, lhs: initial, rhs } },
                );
                assert(ir::insts_view(insts@) =~= condition_set(
                    views,
                    condition,
                    initial,
                ));
            }
            return ;
        }
    }
}

// ---------------------------------------------------------------------------
// A measure: the number of stores
// ---------------------------------------------------------------------------

/// The number of stores among the first `n` instructions.
pub open spec fn stores_below(insts: Seq<InstView>, n: int) -> nat
    decreases n,
{
    if n <= 0 {
        0
    } else {
        stores_below(insts, n - 1) + (if insts[n - 1].kind is Store {
            1nat
        } else {
            0nat
        })
    }
}

/// The number of stores in the first `n` blocks.
pub open spec fn stores_upto(f: FuncView, n: int) -> nat
    decreases n,
{
    if n <= 0 {
        0
    } else {
        stores_upto(f, n - 1) + stores_below(
            f.blocks[n - 1].insts,
            f.blocks[n - 1].insts.len() as int,
        )
    }
}

/// The number of stores.
pub open spec fn stores_in(f: FuncView) -> nat {
    stores_upto(f, f.blocks.len() as int)
}

/// Where no instruction becomes a store there are no more stores, and fewer
/// where one ceases to be one.
pub proof fn lemma_fewer_stores(a: Seq<InstView>, b: Seq<InstView>, n: int, at: int)
    requires
        0 <= n <= a.len(),
        n <= b.len(),
        forall|i: int| 0 <= i < n && (#[trigger] b[i]).kind is Store ==> a[i].kind is Store,
    ensures
        stores_below(b, n) <= stores_below(a, n),
        0 <= at < n && a[at].kind is Store && !(b[at].kind is Store) ==> stores_below(b, n)
            < stores_below(a, n),
    decreases n,
{
    if n > 0 {
        lemma_fewer_stores(a, b, n - 1, at);
        assert(b[n - 1].kind is Store ==> a[n - 1].kind is Store);
    }
}

proof fn lemma_first_defining(insts: Seq<InstView>, v: ValueId, k: int)
    ensures
        first_defining(insts, v, k) matches Some(i) ==> 0 <= i < insts.len(),
    decreases insts.len() - k,
{
    if 0 <= k < insts.len() && insts[k].result != Some(v) {
        lemma_first_defining(insts, v, k + 1);
    }
}

/// Setting the condition makes no store.
pub proof fn lemma_condition_set(insts: Seq<InstView>, condition: ValueId, initial: ValueId)
    ensures
        condition_set(insts, condition, initial).len() == insts.len(),
        forall|i: int|
            0 <= i < insts.len() && (#[trigger] condition_set(insts, condition, initial)[i]).kind is Store
                ==> insts[i].kind is Store,
{
    lemma_first_defining(insts, condition, 0);
}

/// The stores of two blocks decide.
pub proof fn lemma_stores_changed(f: FuncView, g: FuncView, x: int, y: int, n: int)
    requires
        0 <= n <= f.blocks.len(),
        n <= g.blocks.len(),
        forall|b: int|
            0 <= b < n && b != x && b != y ==> #[trigger] g.blocks[b] == f.blocks[b],
        0 <= x < f.blocks.len() && 0 <= x < g.blocks.len() ==> stores_below(
            g.blocks[x].insts,
            g.blocks[x].insts.len() as int,
        ) <= stores_below(f.blocks[x].insts, f.blocks[x].insts.len() as int),
        0 <= y < f.blocks.len() && 0 <= y < g.blocks.len() ==> stores_below(
            g.blocks[y].insts,
            g.blocks[y].insts.len() as int,
        ) < stores_below(f.blocks[y].insts, f.blocks[y].insts.len() as int),
    ensures
        stores_upto(g, n) <= stores_upto(f, n),
        0 <= y < n ==> stores_upto(g, n) < stores_upto(f, n),
    decreases n,
{
    if n > 0 {
        lemma_stores_changed(f, g, x, y, n - 1);
        if n - 1 != x && n - 1 != y {
            assert(g.blocks[n - 1] == f.blocks[n - 1]);
        }
    }
}

/// A function with a store has some.
pub proof fn lemma_has_store(f: FuncView, b: BlockId, i: int)
    requires
        f.has_inst(b, i),
        f.inst(b, i).kind is Store,
    ensures
        stores_in(f) > 0,
{
    let insts = f.block(b).insts;
    lemma_store_counts(insts, i, insts.len() as int);
    lemma_block_counts(f, b.0 as int, f.blocks.len() as int);
}

proof fn lemma_store_counts(insts: Seq<InstView>, i: int, n: int)
    requires
        0 <= i < n <= insts.len(),
        insts[i].kind is Store,
    ensures
        stores_below(insts, n) > 0,
    decreases n,
{
    if i < n - 1 {
        lemma_store_counts(insts, i, n - 1);
    }
}

proof fn lemma_block_counts(f: FuncView, b: int, n: int)
    requires
        0 <= b < n <= f.blocks.len(),
        stores_below(f.blocks[b].insts, f.blocks[b].insts.len() as int) > 0,
    ensures
        stores_upto(f, n) > 0,
    decreases n,
{
    if b < n - 1 {
        lemma_block_counts(f, b, n - 1);
    }
}

} // verus!
