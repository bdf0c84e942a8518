//! Which functions may be inlined, and where.
use vstd::prelude::*;

use crate::edit;
use crate::ir;
use crate::ir::{
    BinaryOp, BlockId, CastOp, FuncView, Function, FunctionId, Inst, InstKind, InstView, KindView,
    Terminator, Type, UnaryOp, ValueId, ValueKind, ValueKindView,
};
use crate::pass::simplify_cfg::dead_blocks;
use crate::pass::simplify_cfg::dead_blocks::reachable_blocks;
use crate::query;
use crate::query::active_insts;
use crate::verify;

verus! {

pub const MAX_SOURCE_BLOCKS: usize = 16;

pub const MAX_SOURCE_INSTS: usize = 80;

pub const MAX_GENERAL_SOURCE_BLOCKS: usize = 32;

pub const MAX_GENERAL_SOURCE_INST_SLOTS: usize = 512;

/// A block costs as much as this many instructions: its terminator and the
/// copies on its edges.
pub const BLOCK_COST: usize = 2;

pub const MAX_CALLSITE_COST: usize = 120;

/// How many steps of an address computation are followed to its root.
pub const MAX_ADDRESS_STEPS: usize = 64;

/// The instructions and blocks that inlining adds.
#[derive(Clone, Copy, PartialEq, Eq, Structural, Debug)]
pub struct Growth {
    pub insts: usize,
    pub blocks: usize,
}

/// Both together stay within the limits.
pub open spec fn fits(a: Growth, b: Growth, max_insts: usize, max_blocks: usize) -> bool {
    a.insts + b.insts <= max_insts && a.blocks + b.blocks <= max_blocks
}

/// The sum of two growths; a number that does not fit is the largest one.
pub open spec fn grown(a: Growth, b: Growth) -> Growth {
    Growth { insts: a.insts.saturating_add(b.insts), blocks: a.blocks.saturating_add(b.blocks) }
}

pub open spec fn no_growth() -> Growth {
    Growth { insts: 0, blocks: 0 }
}

/// One call site is cheap enough.
pub open spec fn site_fits(g: Growth) -> bool {
    g.blocks * BLOCK_COST + g.insts <= MAX_CALLSITE_COST
}

impl Growth {
    pub fn fits_with(self, extra: Growth, max_insts: usize, max_blocks: usize) -> (r: bool)
        ensures
            r == fits(self, extra, max_insts, max_blocks),
    {
        let insts = self.insts.checked_add(extra.insts);
        let blocks = self.blocks.checked_add(extra.blocks);
        match (insts, blocks) {
            (Some(i), Some(b)) => i <= max_insts && b <= max_blocks,
            _ => false,
        }
    }

    pub fn plus(self, extra: Growth) -> (r: Growth)
        ensures
            r == grown(self, extra),
    {
        Growth {
            insts: self.insts.saturating_add(extra.insts),
            blocks: self.blocks.saturating_add(extra.blocks),
        }
    }

    pub fn callsite_fits(self) -> (r: bool)
        ensures
            r == site_fits(self),
    {
        self.blocks <= MAX_CALLSITE_COST && self.insts <= MAX_CALLSITE_COST && self.blocks
            * BLOCK_COST + self.insts <= MAX_CALLSITE_COST
    }
}

// ---------------------------------------------------------------------------
// Call targets
// ---------------------------------------------------------------------------

pub open spec fn names_of(funcs: Seq<FuncView>) -> Seq<Seq<char>> {
    funcs.map_values(|f: FuncView| f.name)
}

/// The first function at or behind `i` with the name.
pub open spec fn named_from(names: Seq<Seq<char>>, name: Seq<char>, i: int) -> Option<FunctionId>
    decreases names.len() - i,
{
    if i < 0 || i >= names.len() {
        None
    } else if names[i] == name {
        Some(FunctionId(i as usize))
    } else {
        named_from(names, name, i + 1)
    }
}

/// The function with the name, if there is exactly one.
pub open spec fn target_of(names: Seq<Seq<char>>, name: Seq<char>) -> Option<FunctionId> {
    match named_from(names, name, 0) {
        Some(id) => if named_from(names, name, id.0 + 1) is None {
            Some(id)
        } else {
            None
        },
        None => None,
    }
}

fn find_named(funcs: &Vec<Function>, name: &String, start: usize) -> (r: Option<FunctionId>)
    requires
        start <= funcs.len(),
    ensures
        r == named_from(names_of(ir::funcs_view(funcs@)), name@, start as int),
        r matches Some(id) ==> start <= id.0 < funcs.len(),
{
    let ghost names = names_of(ir::funcs_view(funcs@));
    let n = funcs.len();
    for i in start..n
        invariant
            n == funcs.len(),
            start <= n,
            names == names_of(ir::funcs_view(funcs@)),
            named_from(names, name@, start as int) == named_from(names, name@, i as int),
    {
        assert(names[i as int] == funcs@[i as int].name@);
        if funcs[i].name == *name {
            return Some(FunctionId(i));
        }
    }
    None
}

/// The function that a call names, if there is exactly one with that name.
pub fn resolve_target(funcs: &Vec<Function>, name: &String) -> (r: Option<FunctionId>)
    ensures
        r == target_of(names_of(ir::funcs_view(funcs@)), name@),
        r matches Some(id) ==> id.0 < funcs.len(),
{
    let id = find_named(funcs, name, 0)?;
    if find_named(funcs, name, id.0 + 1).is_some() {
        return None;
    }
    Some(id)
}

// ---------------------------------------------------------------------------
// Types at a call
// ---------------------------------------------------------------------------

/// An argument may be passed for a parameter: pointers may differ in what
/// they point to.
pub open spec fn compatible(argument: Type, parameter: Type) -> bool {
    argument == parameter || (argument is Ptr && parameter is Ptr)
}

pub open spec fn argument_matches(f: FuncView, arg: ValueId, g: FuncView, param: ValueId) -> bool {
    f.has_value(arg) && g.has_value(param) && compatible(f.value(arg).ty, g.value(param).ty)
}

/// A call in `f` with result `result` passes and takes what `g` expects.
pub open spec fn types_match(f: FuncView, result: ValueId, g: FuncView, args: Seq<ValueId>) -> bool {
    &&& args.len() == g.params.len()
    &&& f.has_value(result)
    &&& f.value(result).ty == g.ret
    &&& forall|k: int|
        0 <= k < args.len() ==> argument_matches(f, #[trigger] args[k], g, g.params[k])
}

/// Whether a call passes and takes what the callee expects.
pub fn call_types_match(caller: &Function, result: ValueId, callee: &Function, args: &Vec<ValueId>) -> (r:
    bool)
    ensures
        r == types_match(caller@, result, callee@, args@),
{
    let n = args.len();
    if n != callee.params.len() || result.0 >= caller.values.len() || !caller.values[result.0].ty.same(
        &callee.ret,
    ) {
        return false;
    }
    for k in 0..n
        invariant
            n == args.len(),
            n == callee.params.len(),
            forall|j: int|
                0 <= j < k ==> argument_matches(
                    caller@,
                    #[trigger] args@[j],
                    callee@,
                    callee@.params[j],
                ),
    {
        let (arg, param) = (args[k], callee.params[k]);
        let good = arg.0 < caller.values.len() && param.0 < callee.values.len() && {
            let (a, p) = (&caller.values[arg.0].ty, &callee.values[param.0].ty);
            a.same(p) || match (a, p) {
                (Type::Ptr(_), Type::Ptr(_)) => true,
                _ => false,
            }
        };
        assert(good == argument_matches(caller@, args@[k as int], callee@, callee@.params[k as int]));
        if !good {
            return false;
        }
    }
    true
}

// ---------------------------------------------------------------------------
// Counting
// ---------------------------------------------------------------------------

/// The operations in the marked blocks among the first `n`.
pub open spec fn operations(f: FuncView, marks: Seq<bool>, n: int) -> nat
    decreases n,
{
    if n <= 0 {
        0
    } else {
        operations(f, marks, n - 1) + (if marks[n - 1] {
            query::active(f, BlockId((n - 1) as usize)).len()
        } else {
            0
        })
    }
}

/// The instruction slots in the marked blocks among the first `n`.
pub open spec fn slots(f: FuncView, marks: Seq<bool>, n: int) -> nat
    decreases n,
{
    if n <= 0 {
        0
    } else {
        slots(f, marks, n - 1) + (if marks[n - 1] {
            f.blocks[n - 1].insts.len()
        } else {
            0
        })
    }
}

proof fn lemma_counts_grow(f: FuncView, marks: Seq<bool>, a: int, b: int)
    requires
        a <= b,
    ensures
        operations(f, marks, a) <= operations(f, marks, b),
        slots(f, marks, a) <= slots(f, marks, b),
    decreases b - a,
{
    if a < b {
        if b > 0 {
            lemma_counts_grow(f, marks, a, b - 1);
        }
    }
}

/// The operations in the reachable blocks, unless there are more than `limit`.
#[verifier::loop_isolation(false)]
fn count_operations(func: &Function, marks: &Vec<bool>, limit: usize) -> (r: Option<usize>)
    requires
        marks.len() == func@.blocks.len(),
        limit <= 1024,
    ensures
        match r {
            Some(n) => n == operations(func@, marks@, func@.blocks.len() as int) && n <= limit,
            None => operations(func@, marks@, func@.blocks.len() as int) > limit,
        },
{
    let ghost f = func@;
    let n = func.blocks.len();
    let mut total: usize = 0;
    for b in 0..n
        invariant
            total == operations(f, marks@, b as int),
            total <= limit,
    {
        if marks[b] {
            let list = active_insts(func, BlockId(b));
            let more = list.len();
            proof {
                lemma_counts_grow(f, marks@, b + 1, n as int);
            }
            if more > limit || total + more > limit {
                return None;
            }
            total = total + more;
        }
    }
    Some(total)
}

/// Whether the reachable blocks hold no more than `limit` slots.
#[verifier::loop_isolation(false)]
fn slots_fit(func: &Function, marks: &Vec<bool>, limit: usize) -> (r: bool)
    requires
        marks.len() == func@.blocks.len(),
        limit <= 1024,
    ensures
        r == (slots(func@, marks@, func@.blocks.len() as int) <= limit),
{
    let ghost f = func@;
    let n = func.blocks.len();
    let mut total: usize = 0;
    for b in 0..n
        invariant
            total == slots(f, marks@, b as int),
            total <= limit,
    {
        if marks[b] {
            let more = func.blocks[b].insts.len();
            assert(more == f.blocks[b as int].insts.len());
            proof {
                lemma_counts_grow(f, marks@, b + 1, n as int);
            }
            if more > limit || total + more > limit {
                return false;
            }
            total = total + more;
        }
    }
    true
}

fn count_marked(marks: &Vec<bool>) -> (r: usize)
    ensures
        r == dead_blocks::rank(marks@, marks.len() as int),
        r <= marks.len(),
{
    let n = marks.len();
    let mut total: usize = 0;
    for b in 0..n
        invariant
            n == marks.len(),
            total == dead_blocks::rank(marks@, b as int),
            total <= b,
    {
        if marks[b] {
            total = total + 1;
        }
    }
    total
}

/// A reachable block returns a value.
pub open spec fn has_return(f: FuncView, marks: Seq<bool>) -> bool {
    exists|b: int|
        0 <= b < f.blocks.len() && marks[b] && is_value_return(
            (#[trigger] f.blocks[b]).terminator,
        )
}

pub open spec fn is_value_return(t: Option<Terminator>) -> bool {
    t matches Some(Terminator::Return(Some(_)))
}

fn returns_value(func: &Function, marks: &Vec<bool>) -> (r: bool)
    requires
        marks.len() == func@.blocks.len(),
    ensures
        r == has_return(func@, marks@),
{
    let n = func.blocks.len();
    for b in 0..n
        invariant
            n == func@.blocks.len(),
            marks.len() == n,
            forall|j: int|
                0 <= j < b ==> !(marks@[j] && is_value_return(
                    (#[trigger] func@.blocks[j]).terminator,
                )),
    {
        if marks[b] {
            if let Some(Terminator::Return(Some(_))) = func.blocks[b].terminator {
                assert(is_value_return(func@.blocks[b as int].terminator));
                return true;
            }
        }
    }
    false
}

/// Some block cannot be reached.
pub open spec fn has_unreachable(marks: Seq<bool>) -> bool {
    !dead_blocks::all_marked(marks)
}

fn has_unmarked(marks: &Vec<bool>) -> (r: bool)
    ensures
        r == has_unreachable(marks@),
{
    let n = marks.len();
    for b in 0..n
        invariant
            n == marks.len(),
            forall|j: int| 0 <= j < b ==> #[trigger] marks@[j],
    {
        if !marks[b] {
            assert(!marks@[b as int]);
            return true;
        }
    }
    false
}

// ---------------------------------------------------------------------------
// Functions that call themselves
// ---------------------------------------------------------------------------

pub open spec fn mentions_f32(ty: Type) -> bool
    decreases ty,
{
    match ty {
        Type::F32 => true,
        Type::Ptr(pointee) => mentions_f32(*pointee),
        Type::Array { elem, .. } => mentions_f32(*elem),
        _ => false,
    }
}

pub fn type_contains_f32(ty: &Type) -> (r: bool)
    ensures
        r == mentions_f32(*ty),
    decreases ty,
{
    match ty {
        Type::F32 => true,
        Type::Ptr(pointee) => type_contains_f32(&**pointee),
        Type::Array { elem, .. } => type_contains_f32(&**elem),
        _ => false,
    }
}

pub open spec fn no_f32(f: FuncView) -> bool {
    forall|v: int| 0 <= v < f.values.len() ==> !mentions_f32((#[trigger] f.values[v]).ty)
}

fn has_no_f32(func: &Function) -> (r: bool)
    ensures
        r == no_f32(func@),
{
    let n = func.values.len();
    for v in 0..n
        invariant
            n == func@.values.len(),
            forall|j: int| 0 <= j < v ==> !mentions_f32((#[trigger] func@.values[j]).ty),
    {
        assert(func@.values[v as int] == func.values@[v as int]@);
        if type_contains_f32(&func.values[v].ty) {
            assert(mentions_f32(func@.values[v as int].ty));
            return false;
        }
    }
    true
}

/// The instruction may be copied. Stack objects and bulk initialization would
/// need a proof about frames, and a call without a result crosses a void
/// boundary.
pub open spec fn cloneable(inst: InstView) -> bool {
    match inst.kind {
        KindView::Alloca { .. } => false,
        KindView::MemZero { .. } => false,
        KindView::FCompare { .. } => false,
        KindView::Unary { op, .. } => op != UnaryOp::Fneg,
        KindView::Binary { op, .. } => op != BinaryOp::Fadd && op != BinaryOp::Fsub && op
            != BinaryOp::Fmul && op != BinaryOp::Fdiv,
        KindView::Cast { op, .. } => op != CastOp::I32ToF32 && op != CastOp::F32ToI32 && op
            != CastOp::F32ToBool,
        KindView::Call { .. } => inst.result is Some,
        _ => true,
    }
}

fn is_cloneable(inst: &Inst) -> (r: bool)
    ensures
        r == cloneable(inst@),
{
    match &inst.kind {
        InstKind::Alloca { .. } => false,
        InstKind::MemZero { .. } => false,
        InstKind::FCompare { .. } => false,
        InstKind::Unary { op, .. } => *op != UnaryOp::Fneg,
        InstKind::Binary { op, .. } => *op != BinaryOp::Fadd && *op != BinaryOp::Fsub && *op
            != BinaryOp::Fmul && *op != BinaryOp::Fdiv,
        InstKind::Cast { op, .. } => *op != CastOp::I32ToF32 && *op != CastOp::F32ToI32 && *op
            != CastOp::F32ToBool,
        InstKind::Call { .. } => inst.result.is_some(),
        _ => true,
    }
}

/// Every instruction of a reachable block may be copied.
pub open spec fn all_cloneable(f: FuncView, marks: Seq<bool>) -> bool {
    forall|b: int, i: int|
        0 <= b < f.blocks.len() && marks[b] && 0 <= i < f.blocks[b].insts.len() ==> cloneable(
            #[trigger] f.blocks[b].insts[i],
        )
}

#[verifier::loop_isolation(false)]
fn instructions_are_cloneable(func: &Function, marks: &Vec<bool>) -> (r: bool)
    requires
        marks.len() == func@.blocks.len(),
    ensures
        r == all_cloneable(func@, marks@),
{
    let ghost f = func@;
    let n = func.blocks.len();
    for b in 0..n
        invariant
            forall|x: int, i: int|
                0 <= x < b && marks@[x] && 0 <= i < f.blocks[x].insts.len() ==> cloneable(
                    #[trigger] f.blocks[x].insts[i],
                ),
    {
        if marks[b] {
            let m = func.blocks[b].insts.len();
            for i in 0..m
                invariant
                    m == f.blocks[b as int].insts.len(),
                    forall|j: int|
                        0 <= j < i ==> cloneable(#[trigger] f.blocks[b as int].insts[j]),
            {
                let inst = &func.blocks[b].insts[i];
                assert(inst@ == f.blocks[b as int].insts[i as int]);
                if !is_cloneable(inst) {
                    return false;
                }
            }
        }
    }
    true
}

/// A call to be inlined.
#[derive(Clone, Copy, PartialEq, Eq, Structural, Debug)]
pub struct CallSite {
    pub block: BlockId,
    pub at: usize,
    pub result: ValueId,
}

/// Only empty slots stand behind position `i`.
pub open spec fn nops_behind(insts: Seq<InstView>, i: int) -> bool {
    forall|j: int| i < j < insts.len() ==> (#[trigger] insts[j]).kind is Nop
}

/// The block returns the call's result at once.
pub open spec fn in_tail_position(f: FuncView, b: BlockId, at: int, result: ValueId) -> bool {
    nops_behind(f.block(b).insts, at) && f.terminator(b) == Some(Terminator::Return(Some(result)))
}

fn is_tail_position(func: &Function, b: BlockId, at: usize, result: ValueId) -> (r: bool)
    requires
        func@.has_inst(b, at as int),
    ensures
        r == in_tail_position(func@, b, at as int, result),
{
    let n = func.blocks[b.0].insts.len();
    for j in at + 1..n
        invariant
            func@.has_inst(b, at as int),
            n == func@.block(b).insts.len(),
            forall|k: int| at < k < j ==> (#[trigger] func@.block(b).insts[k]).kind is Nop,
    {
        let inst = &func.blocks[b.0].insts[j];
        assert(inst@ == func@.block(b).insts[j as int]);
        match inst.kind {
            InstKind::Nop => {},
            _ => {
                assert(!(func@.block(b).insts[j as int].kind is Nop));
                return false;
            },
        }
    }
    match func.blocks[b.0].terminator {
        Some(Terminator::Return(Some(returned))) => returned == result,
        _ => false,
    }
}

/// The sites that one instruction adds: `None` if the function cannot be
/// inlined into itself because of it.
pub open spec fn site_at(
    f: FuncView,
    id: FunctionId,
    names: Seq<Seq<char>>,
    marks: Seq<bool>,
    b: BlockId,
    i: int,
) -> Option<Seq<CallSite>> {
    match f.inst(b, i).kind {
        KindView::Call { name, args } => if target_of(names, name) != Some(id) {
            Some(Seq::empty())
        } else {
            match f.inst(b, i).result {
                Some(result) => if !types_match(f, result, f, args) {
                    None
                } else if in_tail_position(f, b, i, result) || (b == f.entry && has_unreachable(
                    marks,
                )) {
                    Some(Seq::empty())
                } else {
                    Some(seq![CallSite { block: b, at: i as usize, result }])
                },
                None => None,
            }
        },
        _ => Some(Seq::empty()),
    }
}

pub open spec fn joined(a: Option<Seq<CallSite>>, b: Option<Seq<CallSite>>) -> Option<
    Seq<CallSite>,
> {
    match (a, b) {
        (Some(x), Some(y)) => Some(x + y),
        _ => None,
    }
}

/// The sites among the first `n` instructions of block `b`.
pub open spec fn sites_in_block(
    f: FuncView,
    id: FunctionId,
    names: Seq<Seq<char>>,
    marks: Seq<bool>,
    b: BlockId,
    n: int,
) -> Option<Seq<CallSite>>
    decreases n,
{
    if n <= 0 {
        Some(Seq::empty())
    } else {
        joined(
            sites_in_block(f, id, names, marks, b, n - 1),
            site_at(f, id, names, marks, b, n - 1),
        )
    }
}

/// The sites in the reachable blocks among the first `n`, in order.
pub open spec fn sites_below(
    f: FuncView,
    id: FunctionId,
    names: Seq<Seq<char>>,
    marks: Seq<bool>,
    n: int,
) -> Option<Seq<CallSite>>
    decreases n,
{
    if n <= 0 {
        Some(Seq::empty())
    } else if marks[n - 1] {
        let b = BlockId((n - 1) as usize);
        joined(
            sites_below(f, id, names, marks, n - 1),
            sites_in_block(f, id, names, marks, b, f.block(b).insts.len() as int),
        )
    } else {
        sites_below(f, id, names, marks, n - 1)
    }
}

/// A function that can be inlined into itself.
pub struct Candidate {
    pub sites: Vec<CallSite>,
    pub reachable: Vec<bool>,
    pub growth: Growth,
}

pub struct CandidateView {
    pub sites: Seq<CallSite>,
    pub reachable: Seq<bool>,
    pub growth: Growth,
}

impl View for Candidate {
    type V = CandidateView;

    open spec fn view(&self) -> CandidateView {
        CandidateView { sites: self.sites@, reachable: self.reachable@, growth: self.growth }
    }
}

/// The growth of one copy: one phi for the result and one block for the
/// continuation come on top.
pub open spec fn growth_of(f: FuncView) -> Growth {
    let marks = dead_blocks::live(f);
    Growth {
        insts: (operations(f, marks, f.blocks.len() as int) + 1) as usize,
        blocks: (dead_blocks::rank(marks, marks.len() as int) + 1) as usize,
    }
}

/// The function may be inlined into itself if it has calls to itself.
pub open spec fn self_inlinable(f: FuncView) -> bool {
    let marks = dead_blocks::live(f);
    &&& f.ret == Type::I1 || f.ret == Type::I32
    &&& 0 < f.blocks.len() <= MAX_SOURCE_BLOCKS
    &&& verify::valid(f)
    &&& no_f32(f)
    &&& operations(f, marks, f.blocks.len() as int) <= MAX_SOURCE_INSTS
    &&& has_return(f, marks)
    &&& all_cloneable(f, marks)
}

/// The function `f`, number `id` of functions with the given names, as a
/// candidate for being inlined into itself.
pub open spec fn candidate_of(f: FuncView, id: FunctionId, names: Seq<Seq<char>>) -> Option<
    CandidateView,
> {
    let marks = dead_blocks::live(f);
    if self_inlinable(f) {
        match sites_below(f, id, names, marks, f.blocks.len() as int) {
            Some(sites) => if sites.len() > 0 {
                Some(CandidateView { sites, reachable: marks, growth: growth_of(f) })
            } else {
                None
            },
            None => None,
        }
    } else {
        None
    }
}

/// Appends what one instruction adds.
fn add_site(
    func: &Function,
    id: FunctionId,
    funcs: &Vec<Function>,
    has_dead: bool,
    b: BlockId,
    i: usize,
    sites: &mut Vec<CallSite>,
    Ghost(marks): Ghost<Seq<bool>>,
) -> (r: bool)
    requires
        func@.has_inst(b, i as int),
        has_dead == has_unreachable(marks),
    ensures
        match site_at(func@, id, names_of(ir::funcs_view(funcs@)), marks, b, i as int) {
            Some(more) => r && final(sites)@ == old(sites)@ + more,
            None => !r,
        },
{
    let ghost names = names_of(ir::funcs_view(funcs@));
    let ghost before = sites@;
    let inst = &func.blocks[b.0].insts[i];
    assert(inst@ == func@.inst(b, i as int));
    assert(before + Seq::<CallSite>::empty() =~= before);
    if let InstKind::Call { name, args } = &inst.kind {
        if resolve_target(funcs, name) != Some(id) {
            return true;
        }
        match inst.result {
            Some(result) => {
                if !call_types_match(func, result, func, args) {
                    return false;
                }
                if is_tail_position(func, b, i, result) || (b == func.entry && has_dead) {
                    return true;
                }
                let site = CallSite { block: b, at: i, result };
                sites.push(site);
                assert(sites@ =~= before + seq![site]);
                true
            },
            None => false,
        }
    } else {
        true
    }
}

#[verifier::loop_isolation(false)]
fn find_sites(func: &Function, id: FunctionId, funcs: &Vec<Function>, marks: &Vec<bool>) -> (r: Option<
    Vec<CallSite>,
>)
    requires
        marks.len() == func@.blocks.len(),
    ensures
        match r {
            Some(sites) => sites_below(
                func@,
                id,
                names_of(ir::funcs_view(funcs@)),
                marks@,
                func@.blocks.len() as int,
            ) == Some(sites@),
            None => sites_below(
                func@,
                id,
                names_of(ir::funcs_view(funcs@)),
                marks@,
                func@.blocks.len() as int,
            ) is None,
        },
{
    let ghost f = func@;
    let ghost names = names_of(ir::funcs_view(funcs@));
    let has_dead = has_unmarked(marks);
    let mut sites: Vec<CallSite> = Vec::new();
    let n = func.blocks.len();
    assert(sites@ =~= Seq::<CallSite>::empty());
    for b in 0..n
        invariant
            sites_below(f, id, names, marks@, b as int) == Some(sites@),
    {
        if marks[b] {
            let block = BlockId(b);
            let m = func.blocks[b].insts.len();
            let ghost before = sites@;
            assert(before + Seq::<CallSite>::empty() =~= before);
            for i in 0..m
                invariant
                    m == f.block(block).insts.len(),
                    sites_in_block(f, id, names, marks@, block, i as int) is Some,
                    sites@ == before + sites_in_block(f, id, names, marks@, block, i as int)->0,
            {
                let ghost middle = sites@;
                let ghost inner = sites_in_block(f, id, names, marks@, block, i as int)->0;
                if !add_site(func, id, funcs, has_dead, block, i, &mut sites, Ghost(marks@)) {
                    proof {
                        lemma_sites_fail(f, id, names, marks@, block, i + 1, m as int);
                        lemma_sites_below_fail(f, id, names, marks@, b + 1, n as int);
                    }
                    return None;
                }
                let ghost more = site_at(f, id, names, marks@, block, i as int)->0;
                assert((before + inner) + more =~= before + (inner + more));
            }
        }
    }
    Some(sites)
}

proof fn lemma_sites_fail(
    f: FuncView,
    id: FunctionId,
    names: Seq<Seq<char>>,
    marks: Seq<bool>,
    b: BlockId,
    i: int,
    n: int,
)
    requires
        0 < i <= n,
        sites_in_block(f, id, names, marks, b, i) is None,
    ensures
        sites_in_block(f, id, names, marks, b, n) is None,
    decreases n - i,
{
    if i < n {
        lemma_sites_fail(f, id, names, marks, b, i, n - 1);
    }
}

proof fn lemma_sites_below_fail(
    f: FuncView,
    id: FunctionId,
    names: Seq<Seq<char>>,
    marks: Seq<bool>,
    b: int,
    n: int,
)
    requires
        0 < b <= n,
        sites_below(f, id, names, marks, b) is None,
    ensures
        sites_below(f, id, names, marks, n) is None,
    decreases n - b,
{
    if b < n {
        lemma_sites_below_fail(f, id, names, marks, b, n - 1);
    }
}

impl Candidate {
    /// Analyzes a function as a candidate for being inlined into itself.
    pub fn analyze(func: &Function, id: FunctionId, funcs: &Vec<Function>) -> (r: Option<Self>)
        ensures
            match r {
                Some(c) => candidate_of(func@, id, names_of(ir::funcs_view(funcs@))) == Some(c@),
                None => candidate_of(func@, id, names_of(ir::funcs_view(funcs@))) is None,
            },
    {
        let n = func.blocks.len();
        let scalar = match func.ret {
            Type::I1 => true,
            Type::I32 => true,
            _ => false,
        };
        if !scalar || n == 0 || n > MAX_SOURCE_BLOCKS || func.verify().is_err() || !has_no_f32(
            func,
        ) {
            return None;
        }
        let reachable = reachable_blocks(func);
        let active = match count_operations(func, &reachable, MAX_SOURCE_INSTS) {
            Some(active) => active,
            None => {
                return None;
            },
        };
        if !returns_value(func, &reachable) || !instructions_are_cloneable(func, &reachable) {
            return None;
        }
        let sites = match find_sites(func, id, funcs, &reachable) {
            Some(sites) => sites,
            None => {
                return None;
            },
        };
        if sites.len() == 0 {
            return None;
        }
        let count = count_marked(&reachable);
        let growth = Growth { insts: active + 1, blocks: count + 1 };
        Some(Candidate { sites, reachable, growth })
    }
}

// ---------------------------------------------------------------------------
// Functions that may be inlined into others
// ---------------------------------------------------------------------------

/// The parameter or global that an address is computed from, following at most
/// `fuel` steps.
pub open spec fn address_root(f: FuncView, v: ValueId, fuel: nat) -> Option<ValueId>
    decreases fuel,
{
    if fuel == 0 {
        None
    } else {
        match f.value(v).kind {
            ValueKindView::Param => Some(v),
            ValueKindView::Global(_) => Some(v),
            ValueKindView::Const(_) => None,
            ValueKindView::Inst(b, i) => if f.has_inst(b, i as int) {
                match f.inst(b, i as int).kind {
                    KindView::Gep { base, .. } => address_root(f, base, (fuel - 1) as nat),
                    _ => None,
                }
            } else {
                None
            },
        }
    }
}

/// The parameter or global that an address is computed from.
pub fn inline_load_root(func: &Function, v: ValueId) -> (r: Option<ValueId>)
    requires
        func@.wf(),
        func@.has_value(v),
    ensures
        r == address_root(func@, v, MAX_ADDRESS_STEPS as nat),
        r matches Some(w) ==> func@.has_value(w),
{
    let mut cur: ValueId = v;
    let mut left: usize = MAX_ADDRESS_STEPS;
    while left > 0
        invariant
            func@.wf(),
            func@.has_value(cur),
            address_root(func@, v, MAX_ADDRESS_STEPS as nat) == address_root(
                func@,
                cur,
                left as nat,
            ),
        decreases left,
    {
        match func.values[cur.0].kind {
            ValueKind::Param => {
                return Some(cur);
            },
            ValueKind::Global(_) => {
                return Some(cur);
            },
            ValueKind::Const(_) => {
                return None;
            },
            ValueKind::Inst(b, i) => {
                assert(func@.value(cur).kind == ValueKindView::Inst(b, i));
                if b.0 >= func.blocks.len() || i >= func.blocks[b.0].insts.len() {
                    return None;
                }
                assert(func.blocks@[b.0 as int].insts@[i as int]@ == func@.inst(b, i as int));
                proof {
                    query::lemma_inst_wf(func@, b, i as int);
                }
                match &func.blocks[b.0].insts[i].kind {
                    InstKind::Gep { base, .. } => {
                        cur = *base;
                    },
                    _ => {
                        return None;
                    },
                }
                left = left - 1;
            },
        }
    }
    None
}

/// The load reads what a parameter points to, or a global if that is allowed.
pub open spec fn readable(f: FuncView, ptr: ValueId, globals: bool) -> bool {
    match address_root(f, ptr, MAX_ADDRESS_STEPS as nat) {
        Some(root) => match f.value(root).kind {
            ValueKindView::Param => true,
            ValueKindView::Global(_) => globals,
            _ => false,
        },
        None => false,
    }
}

/// The instruction may be copied into a caller.
pub open spec fn inlinable(f: FuncView, inst: InstView, globals: bool) -> bool {
    match inst.kind {
        KindView::Nop => true,
        KindView::Phi { .. } => true,
        KindView::Unary { .. } => true,
        KindView::Binary { .. } => true,
        KindView::ICompare { .. } => true,
        KindView::FCompare { .. } => true,
        KindView::Cast { .. } => true,
        KindView::Gep { .. } => true,
        KindView::Load { ptr } => readable(f, ptr, globals),
        KindView::Store { ptr, .. } => globals && f.value(ptr).kind is Global,
        _ => false,
    }
}

fn is_readonly_inline_inst(func: &Function, inst: &Inst, globals: bool) -> (r: bool)
    requires
        func@.wf(),
        edit::inst_wf(inst@, func@.blocks.len(), func@.values.len()),
    ensures
        r == inlinable(func@, inst@, globals),
{
    match &inst.kind {
        InstKind::Nop => true,
        InstKind::Phi { .. } => true,
        InstKind::Unary { .. } => true,
        InstKind::Binary { .. } => true,
        InstKind::ICompare { .. } => true,
        InstKind::FCompare { .. } => true,
        InstKind::Cast { .. } => true,
        InstKind::Gep { .. } => true,
        InstKind::Load { ptr } => match inline_load_root(func, *ptr) {
            Some(root) => match func.values[root.0].kind {
                ValueKind::Param => true,
                ValueKind::Global(_) => globals,
                _ => false,
            },
            None => false,
        },
        InstKind::Store { ptr, .. } => globals && match func.values[ptr.0].kind {
            ValueKind::Global(_) => true,
            _ => false,
        },
        _ => false,
    }
}

/// A reachable block of a callee may be copied: it only reads, and it does not
/// return without a value.
pub open spec fn block_inlinable(f: FuncView, b: int, globals: bool) -> bool {
    &&& forall|i: int|
        0 <= i < f.blocks[b].insts.len() ==> inlinable(f, #[trigger] f.blocks[b].insts[i], globals)
    &&& f.blocks[b].terminator != Some(Terminator::Return(None))
}

pub open spec fn blocks_inlinable(f: FuncView, marks: Seq<bool>, globals: bool) -> bool {
    forall|b: int|
        0 <= b < f.blocks.len() && marks[b] ==> #[trigger] block_inlinable(f, b, globals)
}

#[verifier::loop_isolation(false)]
fn blocks_are_inlinable(func: &Function, marks: &Vec<bool>, globals: bool) -> (r: bool)
    requires
        func@.wf(),
        marks.len() == func@.blocks.len(),
    ensures
        r == blocks_inlinable(func@, marks@, globals),
{
    let ghost f = func@;
    let n = func.blocks.len();
    for b in 0..n
        invariant
            forall|x: int| 0 <= x < b && marks@[x] ==> #[trigger] block_inlinable(f, x, globals),
    {
        if marks[b] {
            let id = BlockId(b);
            let m = func.blocks[b].insts.len();
            for i in 0..m
                invariant
                    m == f.blocks[b as int].insts.len(),
                    forall|j: int|
                        0 <= j < i ==> inlinable(f, #[trigger] f.blocks[b as int].insts[j], globals),
            {
                let inst = &func.blocks[b].insts[i];
                assert(inst@ == f.blocks[b as int].insts[i as int]);
                proof {
                    query::lemma_inst_wf(f, id, i as int);
                }
                if !is_readonly_inline_inst(func, inst, globals) {
                    assert(!block_inlinable(f, b as int, globals));
                    return false;
                }
            }
            if let Some(Terminator::Return(None)) = func.blocks[b].terminator {
                assert(!block_inlinable(f, b as int, globals));
                return false;
            }
        }
    }
    true
}

pub open spec fn parameter_allowed(ty: Type) -> bool {
    ty == Type::I1 || ty == Type::I32 || ty == Type::F32 || ty is Ptr
}

pub open spec fn parameters_allowed(f: FuncView) -> bool {
    forall|p: int|
        0 <= p < f.params.len() ==> parameter_allowed(f.value(#[trigger] f.params[p]).ty)
}

fn parameters_are_allowed(func: &Function) -> (r: bool)
    requires
        func@.wf(),
    ensures
        r == parameters_allowed(func@),
{
    let n = func.params.len();
    for p in 0..n
        invariant
            func@.wf(),
            n == func@.params.len(),
            forall|q: int|
                0 <= q < p ==> parameter_allowed(func@.value(#[trigger] func@.params[q]).ty),
    {
        assert(func@.params[p as int].0 < func@.values.len());
        let good = match func.values[func.params[p].0].ty {
            Type::I1 => true,
            Type::I32 => true,
            Type::F32 => true,
            Type::Ptr(_) => true,
            _ => false,
        };
        if !good {
            assert(!parameter_allowed(func@.value(func@.params[p as int]).ty));
            return false;
        }
    }
    true
}

/// The function may be inlined into its callers.
pub open spec fn callee_inlinable(f: FuncView, globals: bool) -> bool {
    let marks = dead_blocks::live(f);
    &&& f.ret == Type::I1 || f.ret == Type::I32 || f.ret == Type::F32
    &&& 0 < f.blocks.len() <= MAX_GENERAL_SOURCE_BLOCKS
    &&& verify::valid(f)
    &&& parameters_allowed(f)
    &&& has_return(f, marks)
    &&& operations(f, marks, f.blocks.len() as int) <= MAX_SOURCE_INSTS
    &&& slots(f, marks, f.blocks.len() as int) <= MAX_GENERAL_SOURCE_INST_SLOTS
    &&& blocks_inlinable(f, marks, globals)
}

/// The growth of inlining the function, if it may be inlined.
pub fn analyze_callee(func: &Function, globals: bool) -> (r: Option<Growth>)
    ensures
        r == (if callee_inlinable(func@, globals) {
            Some(growth_of(func@))
        } else {
            None
        }),
{
    let n = func.blocks.len();
    let scalar = match func.ret {
        Type::I1 => true,
        Type::I32 => true,
        Type::F32 => true,
        _ => false,
    };
    if !scalar || n == 0 || n > MAX_GENERAL_SOURCE_BLOCKS || func.verify().is_err()
        || !parameters_are_allowed(func) {
        return None;
    }
    let reachable = reachable_blocks(func);
    let active = match count_operations(func, &reachable, MAX_SOURCE_INSTS) {
        Some(active) => active,
        None => {
            return None;
        },
    };
    if !returns_value(func, &reachable) || !slots_fit(
        func,
        &reachable,
        MAX_GENERAL_SOURCE_INST_SLOTS,
    ) || !blocks_are_inlinable(func, &reachable, globals) {
        return None;
    }
    let count = count_marked(&reachable);
    Some(Growth { insts: active + 1, blocks: count + 1 })
}

} // verus!
