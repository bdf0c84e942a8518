//! Paths to elements of arrays, and proofs that two of them are apart.
use vstd::prelude::*;

use crate::cfg;
use crate::cfg::Dominators;
use crate::edit;
use crate::ir::{
    BinaryOp, BlockId, CompareOp, FuncView, Function, Inst, InstKind, InstView, KindView, ValueId,
    ValueKind, ValueKindView,
};
use crate::loops;
use crate::loops::{analyze_i32_induction, InductionVariable, LoopView, NaturalLoop};
use crate::pass::pointer_recurrence_coalesce::address;
use crate::pass::pointer_recurrence_coalesce::address::constant_i32;
use crate::pass::regional_global_scalar::access;
use crate::patterns;
use crate::patterns::{as_branch, invert, mirror};
use crate::query;
use crate::query::{defining_inst_kind, dominates_in};

verus! {

/// Where an address leads: an object, and the indices into it.
#[derive(Debug)]
pub struct AccessPath {
    pub root: ValueId,
    pub indices: Vec<ValueId>,
}

pub struct AccessPathView {
    pub root: ValueId,
    pub indices: Seq<ValueId>,
}

impl View for AccessPath {
    type V = AccessPathView;

    open spec fn view(&self) -> AccessPathView {
        AccessPathView { root: self.root, indices: self.indices@ }
    }
}

pub open spec fn path_view(r: Option<AccessPath>) -> Option<AccessPathView> {
    match r {
        Some(p) => Some(p@),
        None => None,
    }
}

// ---------------------------------------------------------------------------
// Mathematical model
// ---------------------------------------------------------------------------

/// The path followed by more indices.
pub open spec fn path_joined(p: Option<AccessPathView>, indices: Seq<ValueId>) -> Option<
    AccessPathView,
> {
    match p {
        Some(p) => Some(AccessPathView { root: p.root, indices: p.indices + indices }),
        None => None,
    }
}

/// The path of an address, through at most `fuel` values.
pub open spec fn path_in(f: FuncView, v: ValueId, fuel: nat) -> Option<AccessPathView>
    decreases fuel,
{
    if fuel == 0 {
        None
    } else {
        match f.value(v).kind {
            ValueKindView::Inst(..) => match query::definition(f, v) {
                Some(KindView::Gep { base, indices }) => if indices.len() > 0 {
                    path_joined(path_in(f, base, (fuel - 1) as nat), indices)
                } else {
                    Some(AccessPathView { root: v, indices: Seq::empty() })
                },
                Some(_) => Some(AccessPathView { root: v, indices: Seq::empty() }),
                None => None,
            },
            ValueKindView::Const(_) => None,
            _ => Some(AccessPathView { root: v, indices: Seq::empty() }),
        }
    }
}

/// The path of the address of an element.
pub open spec fn path_of(f: FuncView, v: ValueId) -> Option<AccessPathView> {
    match path_in(f, v, f.values.len()) {
        Some(p) => if p.indices.len() > 0 {
            Some(p)
        } else {
            None
        },
        None => None,
    }
}

/// The value is the address of a local object.
pub open spec fn is_local(f: FuncView, v: ValueId) -> bool {
    query::definition(f, v) matches Some(KindView::Alloca { .. })
}

/// The value comes from outside the function: no local object of the running
/// call can be behind it.
pub open spec fn is_outer(f: FuncView, v: ValueId) -> bool {
    f.value(v).kind is Global || f.value(v).kind is Param
}

/// The roots are different objects: two globals of different names, two local
/// objects, or a local object and a pointer from outside.
pub open spec fn roots_apart(f: FuncView, a: ValueId, b: ValueId) -> bool {
    match (f.value(a).kind, f.value(b).kind) {
        (ValueKindView::Global(x), ValueKindView::Global(y)) => x != y,
        _ => if is_local(f, a) && is_local(f, b) {
            a != b
        } else {
            (is_local(f, a) && is_outer(f, b)) || (is_outer(f, a) && is_local(f, b))
        },
    }
}

/// The constant that a value is away from another.
pub open spec fn delta_of(f: FuncView, v: ValueId, base: ValueId) -> Option<i32> {
    if v == base {
        Some(0i32)
    } else {
        match query::definition(f, v) {
            Some(KindView::Binary { op: BinaryOp::Iadd, lhs, rhs }) => if lhs == base {
                address::constant_of(f, rhs)
            } else if rhs == base {
                address::constant_of(f, lhs)
            } else {
                None
            },
            Some(KindView::Binary { op: BinaryOp::Isub, lhs, rhs }) => if lhs == base {
                match address::constant_of(f, rhs) {
                    Some(c) => if c != i32::MIN {
                        Some((-c) as i32)
                    } else {
                        None
                    },
                    None => None,
                }
            } else {
                None
            },
            _ => None,
        }
    }
}

/// What the header of a loop compares its counter with to stay in the loop, and
/// where it then goes.
pub open spec fn guard_of(f: FuncView, l: LoopView, counter: ValueId) -> Option<
    (CompareOp, ValueId, BlockId),
> {
    match patterns::branch_of(f, l.header) {
        Some((cond, t, e)) => if l.has(t) == l.has(e) {
            None
        } else {
            match query::definition(f, cond) {
                Some(KindView::ICompare { op, lhs, rhs }) => if lhs == counter {
                    Some(guard_with(l, op, rhs, t, e))
                } else if rhs == counter {
                    Some(guard_with(l, patterns::mirrored(op), lhs, t, e))
                } else {
                    None
                },
                _ => None,
            }
        },
        None => None,
    }
}

/// The comparison as the one that holds in the loop.
pub open spec fn guard_with(l: LoopView, op: CompareOp, bound: ValueId, t: BlockId, e: BlockId) -> (
    CompareOp,
    ValueId,
    BlockId,
) {
    if l.has(t) {
        (op, bound, t)
    } else {
        (patterns::inverted(op), bound, e)
    }
}

/// The comparison sets its sides apart.
pub open spec fn is_strict(op: CompareOp) -> bool {
    op is Lt || op is Gt
}

/// The counter starts above the one index, and the other index is the counter or
/// the number after it.
pub open spec fn starts_above(
    f: FuncView,
    iv: InductionVariable,
    target: ValueId,
    other: ValueId,
) -> bool {
    &&& iv.step == 1
    &&& match (delta_of(f, iv.initial, target), delta_of(f, other, iv.phi)) {
        (Some(d), Some(e)) => d > 0 && 0 <= e <= 1,
        _ => false,
    }
}

/// In the block, the two indices are different numbers.
pub open spec fn indices_apart(
    f: FuncView,
    l: LoopView,
    iv: InductionVariable,
    target: ValueId,
    other: ValueId,
    b: BlockId,
) -> bool {
    match guard_of(f, l, iv.phi) {
        Some((op, bound, taken)) => cfg::dominates(f, taken, b) && (is_strict(op) && ((target
            == bound && other == iv.phi) || (other == bound && target == iv.phi)) || op is Lt
            && starts_above(f, iv, target, other)),
        None => false,
    }
}

/// An index, from place `k` on, sets the paths apart.
pub open spec fn index_apart_from(
    f: FuncView,
    l: LoopView,
    iv: InductionVariable,
    target: Seq<ValueId>,
    other: Seq<ValueId>,
    b: BlockId,
    k: int,
) -> bool
    decreases target.len() - k,
{
    if k < 0 || k >= target.len() {
        false
    } else {
        (target[k] != other[k] && indices_apart(f, l, iv, target[k], other[k], b))
            || index_apart_from(f, l, iv, target, other, b, k + 1)
    }
}

/// The paths lead to different elements.
pub open spec fn paths_apart(
    f: FuncView,
    l: LoopView,
    iv: InductionVariable,
    target: AccessPathView,
    other: AccessPathView,
    b: BlockId,
) -> bool {
    if target.root != other.root {
        roots_apart(f, target.root, other.root)
    } else {
        target.indices.len() == other.indices.len() && index_apart_from(
            f,
            l,
            iv,
            target.indices,
            other.indices,
            b,
            0,
        )
    }
}

/// The access in the block leaves the element alone, or is one of it where those
/// are allowed.
pub open spec fn access_fits(
    f: FuncView,
    l: LoopView,
    iv: InductionVariable,
    path: AccessPathView,
    ptr: ValueId,
    b: BlockId,
    own: bool,
) -> bool {
    match path_of(f, ptr) {
        Some(other) => if other == path {
            own
        } else {
            paths_apart(f, l, iv, path, other, b)
        },
        None => false,
    }
}

/// The instruction in the block leaves the element alone. Where `own` is set,
/// loads count too, and accesses by the same path are allowed.
pub open spec fn inst_fits(
    f: FuncView,
    l: LoopView,
    iv: InductionVariable,
    path: AccessPathView,
    kind: KindView,
    b: BlockId,
    own: bool,
) -> bool {
    match kind {
        KindView::Load { ptr } => !own || access_fits(f, l, iv, path, ptr, b, own),
        KindView::Store { ptr, .. } => access_fits(f, l, iv, path, ptr, b, own),
        _ => !access::is_opaque(kind),
    }
}

/// All instructions of the loop leave the element alone.
pub open spec fn loop_fits(
    f: FuncView,
    l: LoopView,
    iv: InductionVariable,
    path: AccessPathView,
    own: bool,
) -> bool {
    forall|b: BlockId, i: int|
        l.has(b) && f.has_inst(b, i) ==> inst_fits(
            f,
            l,
            iv,
            path,
            (#[trigger] f.inst(b, i)).kind,
            b,
            own,
        )
}

/// The first counter that the header of a loop defines, from place `k` on.
pub open spec fn counter_from(f: FuncView, l: LoopView, insts: Seq<InstView>, k: int) -> Option<
    InductionVariable,
>
    decreases insts.len() - k,
{
    if k < 0 || k >= insts.len() {
        None
    } else {
        match insts[k].result {
            Some(phi) => match loops::induction_of(f, l, phi) {
                Some(iv) => Some(iv),
                None => counter_from(f, l, insts, k + 1),
            },
            None => counter_from(f, l, insts, k + 1),
        }
    }
}

pub open spec fn counter_of(f: FuncView, l: LoopView) -> Option<InductionVariable> {
    counter_from(f, l, f.block(l.header).insts, 0)
}

// ---------------------------------------------------------------------------
// Executable functions
// ---------------------------------------------------------------------------

/// The path names values of the function.
pub open spec fn path_wf(f: FuncView, p: AccessPathView) -> bool {
    f.has_value(p.root) && edit::reads_wf(p.indices, f.values.len())
}

fn joined_indices(first: &Vec<ValueId>, rest: &Vec<ValueId>) -> (r: Vec<ValueId>)
    ensures
        r@ == first@ + rest@,
{
    let mut list: Vec<ValueId> = Vec::new();
    let n = first.len();
    for k in 0..n
        invariant
            n == first.len(),
            list@ == first@.take(k as int),
    {
        list.push(first[k]);
        assert(list@ =~= first@.take(k + 1));
    }
    assert(first@.take(n as int) =~= first@);
    let m = rest.len();
    for k in 0..m
        invariant
            m == rest.len(),
            list@ == first@ + rest@.take(k as int),
    {
        list.push(rest[k]);
        assert(list@ =~= first@ + rest@.take(k + 1));
    }
    assert(rest@.take(m as int) =~= rest@);
    list
}

pub fn access_path(func: &Function, pointer: ValueId) -> (r: Option<AccessPath>)
    requires
        func@.wf(),
        func@.has_value(pointer),
    ensures
        path_view(r) == path_of(func@, pointer),
        r matches Some(p) ==> path_wf(func@, p@),
{
    let ghost f = func@;
    let mut current = pointer;
    let mut indices: Vec<ValueId> = Vec::new();
    assert(func.values.len() == f.values.len());
    let mut fuel: usize = func.values.len();
    proof {
        let p = path_in(f, pointer, fuel as nat);
        if p is Some {
            assert(p->0.indices + indices@ =~= p->0.indices);
        }
        assert(path_joined(p, indices@) == p);
    }
    while fuel > 0
        invariant
            func@ == f,
            f.wf(),
            f.has_value(current),
            edit::reads_wf(indices@, f.values.len()),
            path_in(f, pointer, f.values.len()) == path_joined(
                path_in(f, current, fuel as nat),
                indices@,
            ),
        decreases fuel,
    {
        fuel = fuel - 1;
        assert(func.values@[current.0 as int]@ == f.value(current));
        proof {
            query::lemma_definition_wf(f, current);
        }
        let ends = match func.values[current.0].kind {
            ValueKind::Inst(..) => match defining_inst_kind(func, current) {
                Some(InstKind::Gep { base, indices: more }) => {
                    if more.len() > 0 {
                        let ghost rest = path_in(f, *base, fuel as nat);
                        let ghost tail = indices@;
                        indices = joined_indices(more, &indices);
                        current = *base;
                        proof {
                            if rest is Some {
                                assert((rest->0.indices + more@) + tail =~= rest->0.indices
                                    + indices@);
                            }
                        }
                        false
                    } else {
                        true
                    }
                },
                Some(_) => true,
                None => return None,
            },
            ValueKind::Const(_) => return None,
            _ => true,
        };
        if ends {
            assert(Seq::<ValueId>::empty() + indices@ =~= indices@);
            if indices.len() == 0 {
                return None;
            }
            return Some(AccessPath { root: current, indices });
        }
    }
    None
}

pub fn same_path(a: &AccessPath, b: &AccessPath) -> (r: bool)
    ensures
        r == (a@ == b@),
{
    if a.root != b.root || a.indices.len() != b.indices.len() {
        return false;
    }
    let n = a.indices.len();
    for k in 0..n
        invariant
            n == a.indices.len(),
            n == b.indices.len(),
            forall|j: int| 0 <= j < k ==> #[trigger] a.indices@[j] == b.indices@[j],
    {
        if a.indices[k] != b.indices[k] {
            assert(a@.indices[k as int] != b@.indices[k as int]);
            return false;
        }
    }
    assert(a.indices@ =~= b.indices@);
    true
}

/// Whether the address leads to the element.
pub fn leads_to(func: &Function, pointer: ValueId, path: &AccessPath) -> (r: bool)
    requires
        func@.wf(),
        func@.has_value(pointer),
    ensures
        r == (path_of(func@, pointer) == Some(path@)),
{
    match access_path(func, pointer) {
        Some(p) => same_path(&p, path),
        None => false,
    }
}

pub fn local(func: &Function, v: ValueId) -> (r: bool)
    ensures
        r == is_local(func@, v),
{
    match defining_inst_kind(func, v) {
        Some(InstKind::Alloca { .. }) => true,
        _ => false,
    }
}

fn from_outside(func: &Function, v: ValueId) -> (r: bool)
    requires
        func@.has_value(v),
    ensures
        r == is_outer(func@, v),
{
    assert(func.values@[v.0 as int]@ == func@.value(v));
    match &func.values[v.0].kind {
        ValueKind::Global(_) => true,
        ValueKind::Param => true,
        _ => false,
    }
}

fn roots_proven_disjoint(func: &Function, a: ValueId, b: ValueId) -> (r: bool)
    requires
        func@.has_value(a),
        func@.has_value(b),
    ensures
        r == roots_apart(func@, a, b),
{
    assert(func.values@[a.0 as int]@ == func@.value(a));
    assert(func.values@[b.0 as int]@ == func@.value(b));
    match (&func.values[a.0].kind, &func.values[b.0].kind) {
        (ValueKind::Global(x), ValueKind::Global(y)) => *x != *y,
        _ => {
            let a_local = local(func, a);
            let b_local = local(func, b);
            if a_local && b_local {
                a != b
            } else {
                (a_local && from_outside(func, b)) || (b_local && from_outside(func, a))
            }
        },
    }
}

fn affine_delta(func: &Function, v: ValueId, base: ValueId) -> (r: Option<i32>)
    ensures
        r == delta_of(func@, v, base),
{
    if v == base {
        return Some(0);
    }
    match defining_inst_kind(func, v) {
        Some(InstKind::Binary { op, lhs, rhs }) => match op {
            BinaryOp::Iadd => if *lhs == base {
                constant_i32(func, *rhs)
            } else if *rhs == base {
                constant_i32(func, *lhs)
            } else {
                None
            },
            BinaryOp::Isub => if *lhs == base {
                let c = constant_i32(func, *rhs)?;
                if c != i32::MIN {
                    Some(-c)
                } else {
                    None
                }
            } else {
                None
            },
            _ => None,
        },
        _ => None,
    }
}

pub fn active_header_comparison(func: &Function, l: &NaturalLoop, counter: ValueId) -> (r: Option<
    (CompareOp, ValueId, BlockId),
>)
    requires
        func@.wf(),
        func@.has_block(l.header),
    ensures
        r == guard_of(func@, l@, counter),
        r matches Some((_, bound, taken)) ==> func@.has_value(bound) && func@.has_block(taken),
{
    proof {
        query::lemma_terminator_wf(func@, l.header);
    }
    let (cond, t, e) = as_branch(func, l.header)?;
    let inside = l.contains(t);
    if inside == l.contains(e) {
        return None;
    }
    proof {
        query::lemma_definition_wf(func@, cond);
    }
    match defining_inst_kind(func, cond) {
        Some(InstKind::ICompare { op, lhs, rhs }) => {
            let (op, bound) = if *lhs == counter {
                (*op, *rhs)
            } else if *rhs == counter {
                (mirror(*op), *lhs)
            } else {
                return None;
            };
            if inside {
                Some((op, bound, t))
            } else {
                Some((invert(op), bound, e))
            }
        },
        _ => None,
    }
}

fn indices_proven_distinct(
    func: &Function,
    dom: &Dominators,
    l: &NaturalLoop,
    iv: InductionVariable,
    target: ValueId,
    other: ValueId,
    b: BlockId,
) -> (r: bool)
    requires
        func@.wf(),
        dom.of(func@),
        func@.has_block(l.header),
        func@.has_block(b),
    ensures
        r == indices_apart(func@, l@, iv, target, other, b),
{
    let (op, bound, taken) = match active_header_comparison(func, l, iv.phi) {
        Some(guard) => guard,
        None => return false,
    };
    if !dominates_in(func, dom, taken, b) {
        return false;
    }
    let (below, strict) = match op {
        CompareOp::Lt => (true, true),
        CompareOp::Gt => (false, true),
        _ => (false, false),
    };
    if strict && ((target == bound && other == iv.phi) || (other == bound && target == iv.phi)) {
        return true;
    }
    if !below || iv.step != 1 {
        return false;
    }
    match (affine_delta(func, iv.initial, target), affine_delta(func, other, iv.phi)) {
        (Some(d), Some(e)) => d > 0 && 0 <= e && e <= 1,
        _ => false,
    }
}

pub fn paths_proven_disjoint(
    func: &Function,
    dom: &Dominators,
    l: &NaturalLoop,
    iv: InductionVariable,
    target: &AccessPath,
    other: &AccessPath,
    b: BlockId,
) -> (r: bool)
    requires
        func@.wf(),
        dom.of(func@),
        func@.has_block(l.header),
        func@.has_block(b),
        path_wf(func@, target@),
        path_wf(func@, other@),
    ensures
        r == paths_apart(func@, l@, iv, target@, other@, b),
{
    if target.root != other.root {
        return roots_proven_disjoint(func, target.root, other.root);
    }
    let n = target.indices.len();
    if n != other.indices.len() {
        return false;
    }
    for k in 0..n
        invariant
            func@.wf(),
            dom.of(func@),
            func@.has_block(l.header),
            func@.has_block(b),
            target.root == other.root,
            n == target.indices.len(),
            n == other.indices.len(),
            index_apart_from(func@, l@, iv, target.indices@, other.indices@, b, 0)
                == index_apart_from(
                func@,
                l@,
                iv,
                target.indices@,
                other.indices@,
                b,
                k as int,
            ),
    {
        let (x, y) = (target.indices[k], other.indices[k]);
        if x != y && indices_proven_distinct(func, dom, l, iv, x, y, b) {
            return true;
        }
    }
    false
}

fn check_access(
    func: &Function,
    dom: &Dominators,
    l: &NaturalLoop,
    iv: InductionVariable,
    path: &AccessPath,
    ptr: ValueId,
    b: BlockId,
    own: bool,
) -> (r: bool)
    requires
        func@.wf(),
        dom.of(func@),
        func@.has_block(l.header),
        func@.has_block(b),
        path_wf(func@, path@),
        func@.has_value(ptr),
    ensures
        r == access_fits(func@, l@, iv, path@, ptr, b, own),
{
    match access_path(func, ptr) {
        Some(other) => if same_path(&other, path) {
            own
        } else {
            paths_proven_disjoint(func, dom, l, iv, path, &other, b)
        },
        None => false,
    }
}

fn check_inst(
    func: &Function,
    dom: &Dominators,
    l: &NaturalLoop,
    iv: InductionVariable,
    path: &AccessPath,
    inst: &Inst,
    b: BlockId,
    own: bool,
) -> (r: bool)
    requires
        func@.wf(),
        dom.of(func@),
        func@.has_block(l.header),
        func@.has_block(b),
        path_wf(func@, path@),
        edit::inst_wf(inst@, func@.blocks.len(), func@.values.len()),
    ensures
        r == inst_fits(func@, l@, iv, path@, inst@.kind, b, own),
{
    match &inst.kind {
        InstKind::Load { ptr } => !own || check_access(func, dom, l, iv, path, *ptr, b, own),
        InstKind::Store { ptr, .. } => check_access(func, dom, l, iv, path, *ptr, b, own),
        InstKind::MemZero { .. } => false,
        InstKind::MemCopy { .. } => false,
        InstKind::Call { .. } => false,
        _ => true,
    }
}

/// Whether all instructions of the loop leave the element alone.
pub fn loop_memory_is_disjoint(
    func: &Function,
    dom: &Dominators,
    l: &NaturalLoop,
    iv: InductionVariable,
    path: &AccessPath,
    own: bool,
) -> (r: bool)
    requires
        func@.wf(),
        dom.of(func@),
        l@.within(func@.blocks.len()),
        path_wf(func@, path@),
    ensures
        r == loop_fits(func@, l@, iv, path@, own),
{
    let ghost f = func@;
    let ghost blocks = l@.blocks;
    let n = l.blocks.len();
    for k in 0..n
        invariant
            func@ == f,
            f.wf(),
            dom.of(f),
            l@.within(f.blocks.len()),
            path_wf(f, path@),
            blocks == l@.blocks,
            n == blocks.len(),
            forall|b: BlockId, j: int|
                access::seen(f, blocks, k as int, 0, b, j) ==> inst_fits(
                    f,
                    l@,
                    iv,
                    path@,
                    (#[trigger] f.inst(b, j)).kind,
                    b,
                    own,
                ),
    {
        let b = l.blocks[k];
        assert(l@.blocks[k as int].0 < f.blocks.len());
        let count = func.blocks[b.0].insts.len();
        for i in 0..count
            invariant
                func@ == f,
                f.wf(),
                dom.of(f),
                l@.within(f.blocks.len()),
                path_wf(f, path@),
                blocks == l@.blocks,
                k < blocks.len(),
                b == blocks[k as int],
                f.has_block(b),
                count == f.block(b).insts.len(),
                forall|c: BlockId, j: int|
                    access::seen(f, blocks, k as int, i as int, c, j) ==> inst_fits(
                        f,
                        l@,
                        iv,
                        path@,
                        (#[trigger] f.inst(c, j)).kind,
                        c,
                        own,
                    ),
        {
            let inst = &func.blocks[b.0].insts[i];
            assert(inst@ == f.inst(b, i as int));
            proof {
                query::lemma_inst_wf(f, b, i as int);
            }
            if !check_inst(func, dom, l, iv, path, inst, b, own) {
                assert(l@.has(b));
                assert(!inst_fits(f, l@, iv, path@, f.inst(b, i as int).kind, b, own));
                return false;
            }
            assert forall|c: BlockId, j: int|
                access::seen(f, blocks, k as int, i + 1, c, j) implies inst_fits(
                f,
                l@,
                iv,
                path@,
                (#[trigger] f.inst(c, j)).kind,
                c,
                own,
            ) by {
                if !access::seen(f, blocks, k as int, i as int, c, j) {
                    assert(c == b && j == i);
                }
            }
        }
        assert forall|c: BlockId, j: int| access::seen(f, blocks, k + 1, 0, c, j) implies inst_fits(
            f,
            l@,
            iv,
            path@,
            (#[trigger] f.inst(c, j)).kind,
            c,
            own,
        ) by {
            assert(access::seen(f, blocks, k as int, count as int, c, j));
        }
    }
    assert forall|b: BlockId, i: int| l@.has(b) && f.has_inst(b, i) implies inst_fits(
        f,
        l@,
        iv,
        path@,
        (#[trigger] f.inst(b, i)).kind,
        b,
        own,
    ) by {
        let m = choose|m: int| 0 <= m < blocks.len() && blocks[m] == b;
        assert(blocks[m] == b);
        assert(access::seen(f, blocks, n as int, 0, b, i));
    }
    true
}

pub fn header_induction(func: &Function, l: &NaturalLoop) -> (r: Option<InductionVariable>)
    requires
        func@.wf(),
        func@.has_block(l.header),
    ensures
        r == counter_of(func@, l@),
        r matches Some(iv) ==> func@.has_value(iv.phi) && func@.has_value(iv.initial),
{
    let ghost f = func@;
    let ghost insts = f.block(l.header).insts;
    let n = func.blocks[l.header.0].insts.len();
    for k in 0..n
        invariant
            func@ == f,
            f.wf(),
            f.has_block(l.header),
            insts == f.block(l.header).insts,
            n == insts.len(),
            counter_of(f, l@) == counter_from(f, l@, insts, k as int),
    {
        let inst = &func.blocks[l.header.0].insts[k];
        assert(inst@ == f.inst(l.header, k as int));
        if let Some(phi) = inst.result {
            if let Some(iv) = analyze_i32_induction(func, l, phi) {
                proof {
                    loops::lemma_induction_wf(f, l@, phi);
                }
                return Some(iv);
            }
        }
    }
    None
}

} // verus!
