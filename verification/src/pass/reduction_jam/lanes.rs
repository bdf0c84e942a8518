//! Independence of lanes: which later loads an earlier store cannot touch.
//!
//! A memory access is described by the global it lies in, a constant byte
//! offset, a byte stride for every index that is not constant, and a terminal
//! index with its stride. Two accesses to one global are apart if no byte
//! difference that the strides allow makes them overlap.
use vstd::prelude::*;

use crate::edit;
use crate::ir::{
    BlockId, FuncView, Function, Inst, InstKind, InstView, KindView, Type, ValueId, ValueKind,
    ValueKindView,
};
use crate::query;
use crate::util;
use crate::util::{const_i32, defining_inst};

verus! {

pub const MAX_MEMORY_GEP_CHAIN_DEPTH: usize = 64;

pub const MAX_MEMORY_GEP_INDICES: usize = 128;

pub const MAX_MEMORY_TYPE_NODES: usize = 1024;

pub const MAX_MEMORY_PROOF_WORK: usize = 4096;

/// Addresses are numbers modulo this one.
pub const ADDRESS_MODULUS: u128 = 0x1_0000_0000_0000_0000;

/// What an analysis has spent.
#[derive(Clone, Copy, PartialEq, Eq, Structural)]
pub struct Budget {
    pub type_nodes: usize,
    pub work: usize,
}

/// A memory access within a global.
pub struct Access {
    pub global: String,
    pub constant_offset: i64,
    pub prefix_strides: Vec<i64>,
    pub terminal_index: ValueId,
    pub terminal_stride: i64,
    pub width: i64,
}

pub struct AccessView {
    pub global: Seq<char>,
    pub constant_offset: i64,
    pub prefix_strides: Seq<i64>,
    pub terminal_index: ValueId,
    pub terminal_stride: i64,
    pub width: i64,
}

impl View for Access {
    type V = AccessView;

    open spec fn view(&self) -> AccessView {
        AccessView {
            global: self.global@,
            constant_offset: self.constant_offset,
            prefix_strides: self.prefix_strides@,
            terminal_index: self.terminal_index,
            terminal_stride: self.terminal_stride,
            width: self.width,
        }
    }
}

pub open spec fn accesses_view(list: Seq<Access>) -> Seq<AccessView> {
    list.map_values(|a: Access| a@)
}

// ---------------------------------------------------------------------------
// Budgets
// ---------------------------------------------------------------------------

pub open spec fn no_budget_spent() -> Budget {
    Budget { type_nodes: 0, work: 0 }
}

/// The budget with more work done, if there is room for it.
pub open spec fn worked(b: Budget, amount: nat) -> Option<Budget> {
    if b.work + amount <= MAX_MEMORY_PROOF_WORK {
        Some(Budget { work: (b.work + amount) as usize, ..b })
    } else {
        None
    }
}

/// The budget with one more type node visited, if there is room for it.
pub open spec fn visited(b: Budget) -> Option<Budget> {
    if b.type_nodes + 1 <= MAX_MEMORY_TYPE_NODES {
        worked(Budget { type_nodes: (b.type_nodes + 1) as usize, ..b }, 1)
    } else {
        None
    }
}

fn spend_work(b: Budget, amount: usize) -> (r: Option<Budget>)
    ensures
        r == worked(b, amount as nat),
{
    if b.work <= MAX_MEMORY_PROOF_WORK && amount <= MAX_MEMORY_PROOF_WORK - b.work {
        Some(Budget { type_nodes: b.type_nodes, work: b.work + amount })
    } else {
        None
    }
}

fn spend_type_node(b: Budget) -> (r: Option<Budget>)
    ensures
        r == visited(b),
{
    if b.type_nodes < MAX_MEMORY_TYPE_NODES {
        spend_work(Budget { type_nodes: b.type_nodes + 1, work: b.work }, 1)
    } else {
        None
    }
}

// ---------------------------------------------------------------------------
// Types
// ---------------------------------------------------------------------------

/// Whether the types are equal, within the budget.
pub open spec fn equal_types(a: Type, b: Type, budget: Budget) -> Option<(bool, Budget)>
    decreases a,
{
    match visited(budget) {
        Some(rest) => match (a, b) {
            (Type::Void, Type::Void) => Some((true, rest)),
            (Type::I1, Type::I1) => Some((true, rest)),
            (Type::I32, Type::I32) => Some((true, rest)),
            (Type::F32, Type::F32) => Some((true, rest)),
            (Type::Ptr(x), Type::Ptr(y)) => equal_types(*x, *y, rest),
            (Type::Array { elem: x, len: n }, Type::Array { elem: y, len: m }) => if n == m {
                equal_types(*x, *y, rest)
            } else {
                Some((false, rest))
            },
            _ => Some((false, rest)),
        },
        None => None,
    }
}

fn types_equal_checked(a: &Type, b: &Type, budget: Budget) -> (r: Option<(bool, Budget)>)
    ensures
        r == equal_types(*a, *b, budget),
    decreases a,
{
    let rest = spend_type_node(budget)?;
    match (a, b) {
        (Type::Void, Type::Void) => Some((true, rest)),
        (Type::I1, Type::I1) => Some((true, rest)),
        (Type::I32, Type::I32) => Some((true, rest)),
        (Type::F32, Type::F32) => Some((true, rest)),
        (Type::Ptr(x), Type::Ptr(y)) => types_equal_checked(&**x, &**y, rest),
        (Type::Array { elem: x, len: n }, Type::Array { elem: y, len: m }) => if *n == *m {
            types_equal_checked(&**x, &**y, rest)
        } else {
            Some((false, rest))
        },
        _ => Some((false, rest)),
    }
}

/// The size, if it is within the range of the numbers.
pub open spec fn within_range(size: int) -> Option<i64> {
    if size <= i32::MAX {
        Some(size as i64)
    } else {
        None
    }
}

/// The size in bytes of `elements` values of the type, within the budget.
pub open spec fn sized(ty: Type, elements: nat, budget: Budget) -> Option<(i64, Budget)>
    decreases ty,
{
    match visited(budget) {
        Some(rest) => match ty {
            Type::Void => Some((0i64, rest)),
            Type::I1 | Type::I32 | Type::F32 => match within_range(elements as int * 4) {
                Some(size) => Some((size, rest)),
                None => None,
            },
            Type::Ptr(_) => match within_range(elements as int * 8) {
                Some(size) => Some((size, rest)),
                None => None,
            },
            Type::Array { elem, len } => if elements * len <= i32::MAX && len <= i64::MAX {
                sized(*elem, elements * len as nat, rest)
            } else {
                None
            },
        },
        None => None,
    }
}

fn sized_elements(ty: &Type, elements: i64, budget: Budget) -> (r: Option<(i64, Budget)>)
    requires
        0 <= elements <= i32::MAX,
    ensures
        r == sized(*ty, elements as nat, budget),
        r matches Some((size, _)) ==> 0 <= size <= i32::MAX,
    decreases ty,
{
    let rest = spend_type_node(budget)?;
    match ty {
        Type::Void => Some((0, rest)),
        Type::I1 | Type::I32 | Type::F32 => if elements * 4 <= i32::MAX as i64 {
            Some((elements * 4, rest))
        } else {
            None
        },
        Type::Ptr(_) => if elements * 8 <= i32::MAX as i64 {
            Some((elements * 8, rest))
        } else {
            None
        },
        Type::Array { elem, len } => {
            let n = *len as u128;
            assert(elements as u128 * n <= 0x7fff_ffff * 0xffff_ffff_ffff_ffff) by (nonlinear_arith)
                requires
                    elements as u128 <= 0x7fff_ffff,
                    n <= 0xffff_ffff_ffff_ffff,
            ;
            let total = elements as u128 * n;
            if total <= i32::MAX as u128 && n <= i64::MAX as u128 {
                sized_elements(&**elem, total as i64, rest)
            } else {
                None
            }
        },
    }
}

/// The size in bytes of a type, within the budget.
pub open spec fn type_size(ty: Type, budget: Budget) -> Option<(i64, Budget)> {
    sized(ty, 1, budget)
}

fn checked_type_size(ty: &Type, budget: Budget) -> (r: Option<(i64, Budget)>)
    ensures
        r == type_size(*ty, budget),
        r matches Some((size, _)) ==> 0 <= size <= i32::MAX,
{
    sized_elements(ty, 1, budget)
}

pub open spec fn at_least_one(size: i64) -> i64 {
    if size < 1 {
        1
    } else {
        size
    }
}

fn one_at_least(size: i64) -> (r: i64)
    ensures
        r == at_least_one(size),
{
    if size < 1 {
        1
    } else {
        size
    }
}

/// The byte strides of `count` indices into a type.
pub open spec fn strides_into(ty: Type, count: nat, budget: Budget) -> Option<(Seq<i64>, Budget)>
    decreases count,
{
    if count == 0 {
        Some((Seq::empty(), budget))
    } else {
        let inner = match ty {
            Type::Ptr(inner) => Some(*inner),
            Type::Array { elem, .. } => Some(*elem),
            _ => None,
        };
        match inner {
            Some(inner) => match type_size(inner, budget) {
                Some((size, rest)) => match strides_into(inner, (count - 1) as nat, rest) {
                    Some((list, last)) => Some((seq![at_least_one(size)] + list, last)),
                    None => None,
                },
                None => None,
            },
            None => None,
        }
    }
}

pub open spec fn strides_view(r: Option<(Vec<i64>, Budget)>) -> Option<(Seq<i64>, Budget)> {
    match r {
        Some((list, b)) => Some((list@, b)),
        None => None,
    }
}

/// Strides are positive and not large.
pub open spec fn strides_fit(list: Seq<i64>) -> bool {
    forall|k: int| 0 <= k < list.len() ==> 1 <= #[trigger] list[k] <= i32::MAX
}

fn walk_strides(ty: &Type, count: usize, budget: Budget) -> (r: Option<(Vec<i64>, Budget)>)
    ensures
        strides_view(r) == strides_into(*ty, count as nat, budget),
        r matches Some((list, _)) ==> strides_fit(list@) && list.len() == count,
    decreases count,
{
    if count == 0 {
        let list: Vec<i64> = Vec::new();
        assert(list@ =~= Seq::<i64>::empty());
        return Some((list, budget));
    }
    let inner = match ty {
        Type::Ptr(inner) => &**inner,
        Type::Array { elem, .. } => &**elem,
        _ => return None,
    };
    let (size, rest) = checked_type_size(inner, budget)?;
    let (list, last) = walk_strides(inner, count - 1, rest)?;
    let stride = one_at_least(size);
    let mut all = vec![stride];
    let n = list.len();
    for k in 0..n
        invariant
            n == list.len(),
            1 <= stride <= i32::MAX,
            strides_fit(list@),
            strides_fit(all@),
            all@ == seq![stride] + list@.take(k as int),
    {
        assert(1 <= list@[k as int] <= i32::MAX);
        all.push(list[k]);
        assert(all@ =~= seq![stride] + list@.take(k + 1));
    }
    assert(list@.take(n as int) =~= list@);
    Some((all, last))
}

/// The byte strides of an address computation.
pub open spec fn gep_strides(f: FuncView, base: ValueId, result: ValueId, count: nat, budget: Budget) -> Option<
    (Seq<i64>, Budget),
> {
    match (f.value(base).ty, f.value(result).ty) {
        (Type::Ptr(_), Type::Ptr(pointee)) => if count == 1 {
            match type_size(*pointee, budget) {
                Some((size, rest)) => Some((seq![at_least_one(size)], rest)),
                None => None,
            }
        } else {
            strides_into(f.value(base).ty, count, budget)
        },
        _ => None,
    }
}

fn typed_gep_byte_strides(
    func: &Function,
    base: ValueId,
    result: ValueId,
    count: usize,
    budget: Budget,
) -> (r: Option<(Vec<i64>, Budget)>)
    requires
        func@.has_value(base),
        func@.has_value(result),
    ensures
        strides_view(r) == gep_strides(func@, base, result, count as nat, budget),
        r matches Some((list, _)) ==> strides_fit(list@) && list.len() == count,
{
    assert(func.values@[base.0 as int]@ == func@.value(base));
    assert(func.values@[result.0 as int]@ == func@.value(result));
    match (&func.values[base.0].ty, &func.values[result.0].ty) {
        (Type::Ptr(_), Type::Ptr(pointee)) => {
            if count == 1 {
                let (size, rest) = checked_type_size(&**pointee, budget)?;
                let list = vec![one_at_least(size)];
                assert(list@ =~= seq![at_least_one(size)]);
                Some((list, rest))
            } else {
                walk_strides(&func.values[base.0].ty, count, budget)
            }
        },
        _ => None,
    }
}

// ---------------------------------------------------------------------------
// Accesses
// ---------------------------------------------------------------------------

pub open spec fn fits(x: int) -> bool {
    i64::MIN <= x <= i64::MAX
}

/// The constant offset and the other strides with those of the indices from
/// place `k` on added.
pub open spec fn indices_added(
    f: FuncView,
    indices: Seq<ValueId>,
    strides: Seq<i64>,
    offset: i64,
    prefix: Seq<i64>,
    k: int,
) -> Option<(i64, Seq<i64>)>
    decreases indices.len() - k,
{
    if k < 0 || k >= indices.len() {
        Some((offset, prefix))
    } else {
        match util::const_i32_of(f, indices[k]) {
            Some(c) => if fits(c * strides[k]) && fits(offset + c * strides[k]) {
                indices_added(
                    f,
                    indices,
                    strides,
                    (offset + c * strides[k]) as i64,
                    prefix,
                    k + 1,
                )
            } else {
                None
            },
            None => indices_added(f, indices, strides, offset, prefix.push(strides[k]), k + 1),
        }
    }
}

pub open spec fn offsets_view(r: Option<(i64, Vec<i64>)>) -> Option<(i64, Seq<i64>)> {
    match r {
        Some((offset, list)) => Some((offset, list@)),
        None => None,
    }
}

#[verifier::loop_isolation(false)]
fn add_indices(
    func: &Function,
    indices: &Vec<ValueId>,
    strides: &Vec<i64>,
    offset: i64,
    prefix: Vec<i64>,
) -> (r: Option<(i64, Vec<i64>)>)
    requires
        strides.len() == indices.len(),
        strides_fit(strides@),
        strides_fit(prefix@),
    ensures
        offsets_view(r) == indices_added(func@, indices@, strides@, offset, prefix@, 0),
        r matches Some((_, list)) ==> strides_fit(list@),
{
    let ghost want = indices_added(func@, indices@, strides@, offset, prefix@, 0);
    let mut offset = offset;
    let mut prefix = prefix;
    let n = indices.len();
    for k in 0..n
        invariant
            n == indices.len(),
            strides_fit(prefix@),
            want == indices_added(func@, indices@, strides@, offset, prefix@, k as int),
    {
        let stride = strides[k];
        assert(1 <= strides@[k as int] <= i32::MAX);
        match const_i32(func, indices[k]) {
            Some(c) => {
                assert(-0x8000_0000 * 0x7fff_ffff <= c as i128 * stride as i128 <= 0x7fff_ffff
                    * 0x7fff_ffff) by (nonlinear_arith)
                    requires
                        -0x8000_0000 <= c as i128 <= 0x7fff_ffff,
                        1 <= stride as i128 <= 0x7fff_ffff,
                ;
                let bytes = c as i128 * stride as i128;
                let sum = offset as i128 + bytes;
                if sum < i64::MIN as i128 || sum > i64::MAX as i128 {
                    return None;
                }
                offset = sum as i64;
            },
            None => {
                prefix.push(stride);
            },
        }
    }
    Some((offset, prefix))
}

/// All indices are integers.
pub open spec fn are_integers(f: FuncView, indices: Seq<ValueId>) -> bool {
    forall|k: int|
        0 <= k < indices.len() ==> f.has_value(#[trigger] indices[k]) && f.value(indices[k]).ty
            == Type::I32
}

fn all_integers(func: &Function, indices: &Vec<ValueId>) -> (r: bool)
    ensures
        r == are_integers(func@, indices@),
{
    let n = indices.len();
    for k in 0..n
        invariant
            n == indices.len(),
            forall|j: int|
                0 <= j < k ==> func@.has_value(#[trigger] indices@[j]) && func@.value(
                    indices@[j],
                ).ty == Type::I32,
    {
        let v = indices[k];
        if v.0 >= func.values.len() {
            assert(!func@.has_value(indices@[k as int]));
            return false;
        }
        assert(func.values@[v.0 as int]@ == func@.value(v));
        if !func.values[v.0].ty.same(&Type::I32) {
            assert(func@.value(indices@[k as int]).ty != Type::I32);
            return false;
        }
    }
    true
}

/// The parts of an access that are found so far.
pub struct Chain {
    pub offset: i64,
    pub prefix: Vec<i64>,
    pub terminal: Option<(ValueId, i64)>,
}

pub struct ChainView {
    pub offset: i64,
    pub prefix: Seq<i64>,
    pub terminal: Option<(ValueId, i64)>,
}

impl View for Chain {
    type V = ChainView;

    open spec fn view(&self) -> ChainView {
        ChainView { offset: self.offset, prefix: self.prefix@, terminal: self.terminal }
    }
}

/// The chain with one more address computation.
pub open spec fn extended(
    f: FuncView,
    c: ChainView,
    indices: Seq<ValueId>,
    strides: Seq<i64>,
) -> Option<ChainView> {
    if c.terminal is None {
        if indices.len() == 1 {
            Some(ChainView { terminal: Some((indices[0], strides[0])), ..c })
        } else {
            None
        }
    } else {
        match indices_added(f, indices, strides, c.offset, c.prefix, 0) {
            Some((offset, prefix)) => Some(ChainView { offset, prefix, ..c }),
            None => None,
        }
    }
}

pub open spec fn chain_view(c: Option<Chain>) -> Option<ChainView> {
    match c {
        Some(c) => Some(c@),
        None => None,
    }
}

/// The strides of the chain fit.
pub open spec fn chain_fits(c: ChainView) -> bool {
    &&& strides_fit(c.prefix)
    &&& c.terminal matches Some((_, s)) ==> 1 <= s <= i32::MAX
}

fn extend_chain(func: &Function, c: Chain, indices: &Vec<ValueId>, strides: &Vec<i64>) -> (r: Option<
    Chain,
>)
    requires
        strides.len() == indices.len(),
        strides_fit(strides@),
        chain_fits(c@),
    ensures
        chain_view(r) == extended(func@, c@, indices@, strides@),
        r matches Some(d) ==> chain_fits(d@),
{
    match c.terminal {
        None => if indices.len() == 1 {
            assert(1 <= strides@[0] <= i32::MAX);
            Some(
                Chain {
                    offset: c.offset,
                    prefix: c.prefix,
                    terminal: Some((indices[0], strides[0])),
                },
            )
        } else {
            None
        },
        Some(t) => {
            let (offset, prefix) = add_indices(func, indices, strides, c.offset, c.prefix)?;
            Some(Chain { offset, prefix, terminal: Some(t) })
        },
    }
}

/// The access that ends at the global.
pub open spec fn finished(name: Seq<char>, c: ChainView, width: i64, budget: Budget) -> Option<
    (AccessView, Budget),
> {
    match (worked(budget, 1), c.terminal) {
        (Some(b), Some((index, stride))) => Some(
            (
                AccessView {
                    global: name,
                    constant_offset: c.offset,
                    prefix_strides: c.prefix,
                    terminal_index: index,
                    terminal_stride: stride,
                    width,
                },
                b,
            ),
        ),
        _ => None,
    }
}

/// One address computation: its base, the chain behind it, the number of
/// indices seen, and the budget left.
pub open spec fn chain_step(f: FuncView, v: ValueId, count: nat, c: ChainView, budget: Budget) -> Option<
    (ValueId, ChainView, nat, Budget),
> {
    match (worked(budget, 1), util::def_kind(f, v)) {
        (Some(b1), Some(KindView::Gep { base, indices })) => if f.value(v).ty is Ptr && f.value(
            base,
        ).ty is Ptr && indices.len() > 0 && count + indices.len() <= MAX_MEMORY_GEP_INDICES {
            match worked(b1, indices.len()) {
                Some(b2) => if are_integers(f, indices) {
                    match gep_strides(f, base, v, indices.len(), b2) {
                        Some((strides, b3)) => match extended(f, c, indices, strides) {
                            Some(d) => Some((base, d, count + indices.len(), b3)),
                            None => None,
                        },
                        None => None,
                    }
                } else {
                    None
                },
                None => None,
            }
        } else {
            None
        },
        _ => None,
    }
}

/// The access whose address computations from `v` on are still to be looked
/// at; `depth` of them and `count` indices were seen.
pub open spec fn access_from(
    f: FuncView,
    v: ValueId,
    depth: nat,
    count: nat,
    c: ChainView,
    width: i64,
    budget: Budget,
) -> Option<(AccessView, Budget)>
    decreases MAX_MEMORY_GEP_CHAIN_DEPTH - depth,
{
    if depth >= MAX_MEMORY_GEP_CHAIN_DEPTH {
        None
    } else {
        match chain_step(f, v, count, c, budget) {
            Some((base, d, n, rest)) => match f.value(base).kind {
                ValueKindView::Global(name) => finished(name, d, width, rest),
                _ => access_from(f, base, depth + 1, n, d, width, rest),
            },
            None => None,
        }
    }
}

/// The access to a value of the type through the pointer, within the budget.
pub open spec fn access_of(f: FuncView, ptr: ValueId, ty: Type, budget: Budget) -> Option<
    (AccessView, Budget),
> {
    match (worked(budget, 1), f.value(ptr).ty) {
        (Some(b1), Type::Ptr(pointee)) => match equal_types(*pointee, ty, b1) {
            Some((true, b2)) => match type_size(ty, b2) {
                Some((width, b3)) => if width > 0 {
                    access_from(
                        f,
                        ptr,
                        0,
                        0,
                        ChainView { offset: 0, prefix: Seq::empty(), terminal: None },
                        width,
                        b3,
                    )
                } else {
                    None
                },
                None => None,
            },
            _ => None,
        },
        _ => None,
    }
}

pub open spec fn access_view(r: Option<(Access, Budget)>) -> Option<(AccessView, Budget)> {
    match r {
        Some((a, b)) => Some((a@, b)),
        None => None,
    }
}

/// The strides and the width of the access fit.
pub open spec fn access_fits(a: AccessView) -> bool {
    &&& strides_fit(a.prefix_strides)
    &&& 1 <= a.terminal_stride <= i32::MAX
    &&& 1 <= a.width <= i32::MAX
}

fn step_chain(func: &Function, v: ValueId, count: usize, c: Chain, budget: Budget) -> (r: Option<
    (ValueId, Chain, usize, Budget),
>)
    requires
        func@.wf(),
        func@.has_value(v),
        chain_fits(c@),
    ensures
        match r {
            Some((base, d, n, b)) => chain_step(func@, v, count as nat, c@, budget) == Some(
                (base, d@, n as nat, b),
            ) && chain_fits(d@) && func@.has_value(base),
            None => chain_step(func@, v, count as nat, c@, budget) is None,
        },
{
    let b1 = spend_work(budget, 1)?;
    match defining_inst(func, v) {
        Some(InstKind::Gep { base, indices }) => {
            proof {
                crate::loops::lemma_def_kind_wf(func@, v);
            }
            assert(func.values@[v.0 as int]@ == func@.value(v));
            assert(func.values@[base.0 as int]@ == func@.value(*base));
            match (&func.values[v.0].ty, &func.values[base.0].ty) {
                (Type::Ptr(_), Type::Ptr(_)) => {},
                _ => return None,
            }
            let n = indices.len();
            if n == 0 || n > MAX_MEMORY_GEP_INDICES || count > MAX_MEMORY_GEP_INDICES - n {
                return None;
            }
            let b2 = spend_work(b1, n)?;
            if !all_integers(func, indices) {
                return None;
            }
            let (strides, b3) = typed_gep_byte_strides(func, *base, v, n, b2)?;
            let d = extend_chain(func, c, indices, &strides)?;
            Some((*base, d, count + n, b3))
        },
        _ => None,
    }
}

fn follow_chain(func: &Function, v: ValueId, depth: usize, count: usize, c: Chain, width: i64, budget: Budget) -> (r:
    Option<(Access, Budget)>)
    requires
        func@.wf(),
        func@.has_value(v),
        chain_fits(c@),
        1 <= width <= i32::MAX,
    ensures
        access_view(r) == access_from(
            func@,
            v,
            depth as nat,
            count as nat,
            c@,
            width,
            budget,
        ),
        r matches Some((a, _)) ==> access_fits(a@),
    decreases MAX_MEMORY_GEP_CHAIN_DEPTH - depth,
{
    if depth >= MAX_MEMORY_GEP_CHAIN_DEPTH {
        return None;
    }
    let (base, d, n, rest) = step_chain(func, v, count, c, budget)?;
    assert(func.values@[base.0 as int]@ == func@.value(base));
    match &func.values[base.0].kind {
        ValueKind::Global(name) => {
            let last = spend_work(rest, 1)?;
            let (index, stride) = d.terminal?;
            Some(
                (
                    Access {
                        global: name.clone(),
                        constant_offset: d.offset,
                        prefix_strides: d.prefix,
                        terminal_index: index,
                        terminal_stride: stride,
                        width,
                    },
                    last,
                ),
            )
        },
        _ => follow_chain(func, base, depth + 1, n, d, width, rest),
    }
}

fn analyze_global_memory_access(func: &Function, ptr: ValueId, ty: &Type, budget: Budget) -> (r: Option<
    (Access, Budget),
>)
    requires
        func@.wf(),
        func@.has_value(ptr),
    ensures
        access_view(r) == access_of(func@, ptr, *ty, budget),
        r matches Some((a, _)) ==> access_fits(a@),
{
    let b1 = spend_work(budget, 1)?;
    assert(func.values@[ptr.0 as int]@ == func@.value(ptr));
    match &func.values[ptr.0].ty {
        Type::Ptr(pointee) => {
            let (equal, b2) = types_equal_checked(&**pointee, ty, b1)?;
            if !equal {
                return None;
            }
            let (width, b3) = checked_type_size(ty, b2)?;
            if width <= 0 {
                return None;
            }
            let c = Chain { offset: 0, prefix: Vec::new(), terminal: None };
            assert(c@.prefix =~= Seq::<i64>::empty());
            follow_chain(func, ptr, 0, 0, c, width, b3)
        },
        _ => None,
    }
}

// ---------------------------------------------------------------------------
// Distances
// ---------------------------------------------------------------------------

/// The greatest common divisor.
pub open spec fn gcd(a: nat, b: nat) -> nat
    decreases b,
{
    if b == 0 {
        a
    } else {
        gcd(b, a % b)
    }
}

pub fn nonnegative_gcd(a: u128, b: u128) -> (r: u128)
    ensures
        r == gcd(a as nat, b as nat),
        a > 0 ==> r > 0,
        a > 0 ==> r <= a || r <= b,
{
    let mut x = a;
    let mut y = b;
    while y != 0
        invariant
            gcd(a as nat, b as nat) == gcd(x as nat, y as nat),
            a > 0 ==> x > 0 || y > 0,
            x <= a || x <= b,
            y <= a || y <= b,
        decreases y,
    {
        let z = x % y;
        x = y;
        y = z;
    }
    x
}

pub open spec fn magnitude(x: int) -> nat {
    if x < 0 {
        (-x) as nat
    } else {
        x as nat
    }
}

/// The greatest common divisor of `g` and the strides from place `k` on.
pub open spec fn gcd_from(g: nat, strides: Seq<i64>, k: int) -> nat
    decreases strides.len() - k,
{
    if k < 0 || k >= strides.len() {
        g
    } else {
        gcd_from(gcd(g, magnitude(strides[k] as int)), strides, k + 1)
    }
}

fn fold_gcd(g: u128, strides: &Vec<i64>) -> (r: u128)
    requires
        0 < g <= ADDRESS_MODULUS,
        strides_fit(strides@),
    ensures
        r == gcd_from(g as nat, strides@, 0),
        0 < r <= ADDRESS_MODULUS,
{
    let mut x = g;
    let n = strides.len();
    for k in 0..n
        invariant
            n == strides.len(),
            strides_fit(strides@),
            0 < x <= ADDRESS_MODULUS,
            gcd_from(g as nat, strides@, 0) == gcd_from(x as nat, strides@, k as int),
    {
        assert(1 <= strides@[k as int] <= i32::MAX);
        x = nonnegative_gcd(x, strides[k] as u128);
    }
    x
}

/// The step between the byte differences that the indices allow.
pub open spec fn step_of(store: AccessView, load: AccessView) -> nat {
    let g1 = gcd_from(ADDRESS_MODULUS as nat, store.prefix_strides, 0);
    let g2 = gcd_from(g1, load.prefix_strides, 0);
    gcd(g2, magnitude(load.terminal_stride - store.terminal_stride))
}

fn find_step(store: &Access, load: &Access) -> (r: u128)
    requires
        access_fits(store@),
        access_fits(load@),
    ensures
        r == step_of(store@, load@),
        0 < r <= ADDRESS_MODULUS,
{
    let g1 = fold_gcd(ADDRESS_MODULUS, &store.prefix_strides);
    let g2 = fold_gcd(g1, &load.prefix_strides);
    let d = load.terminal_stride - store.terminal_stride;
    let m = if d < 0 {
        (-d) as u128
    } else {
        d as u128
    };
    nonnegative_gcd(g2, m)
}

/// The byte difference of the two accesses in their lanes, but for the indices
/// that are not constant; nothing where it leaves the range of the numbers.
pub open spec fn lane_difference(store: AccessView, s: int, load: AccessView, l: int) -> Option<int> {
    let base = load.constant_offset - store.constant_offset;
    let raised = base + load.terminal_stride * l;
    let last = raised - store.terminal_stride * s;
    if fits(base) && fits(raised) && fits(last) {
        Some(last)
    } else {
        None
    }
}

/// Some number of the interval is `value` modulo the modulus.
pub open spec fn interval_hits(low: int, high: int, value: int, modulus: int) -> bool {
    exists|x: int| low <= x <= high && #[trigger] ((x - value) % modulus) == 0
}

proof fn lemma_interval_hits(low: int, high: int, value: int, modulus: int)
    requires
        modulus > 0,
        low <= high,
    ensures
        interval_hits(low, high, value, modulus) <==> (value - low) % modulus <= high - low,
{
    let delta = (value - low) % modulus;
    vstd::arithmetic::div_mod::lemma_fundamental_div_mod(value - low, modulus);
    let q = (value - low) / modulus;
    let x = low + delta;
    assert(x - value == modulus * (-q)) by (nonlinear_arith)
        requires
            x == low + delta,
            value - low == modulus * q + delta,
    ;
    vstd::arithmetic::div_mod::lemma_mod_multiples_basic(-q, modulus);
    assert((x - value) % modulus == 0) by {
        assert(modulus * (-q) == (-q) * modulus) by (nonlinear_arith);
    }
    if interval_hits(low, high, value, modulus) {
        let y = choose|y: int| low <= y <= high && #[trigger] ((y - value) % modulus) == 0;
        vstd::arithmetic::div_mod::lemma_fundamental_div_mod(y - value, modulus);
        let p = (y - value) / modulus;
        let t = p + q;
        assert(y - low == modulus * t + delta) by (nonlinear_arith)
            requires
                y - value == modulus * p,
                value - low == modulus * q + delta,
                t == p + q,
        ;
        if t < 0 {
            assert(modulus * t <= -modulus) by (nonlinear_arith)
                requires
                    modulus > 0,
                    t <= -1,
            ;
        } else {
            assert(modulus * t >= 0) by (nonlinear_arith)
                requires
                    modulus > 0,
                    t >= 0,
            ;
        }
    }
}

fn signed_residue(value: i128, modulus: u128) -> (r: u128)
    requires
        0 < modulus <= ADDRESS_MODULUS,
        -0x8000_0000_0000_0000 <= value <= 0x7fff_ffff_ffff_ffff,
    ensures
        r == value as int % modulus as int,
        r < modulus,
{
    let m = modulus as i128;
    if value >= 0 {
        (value as u128) % modulus
    } else {
        let rest = ((-value) as u128) % modulus;
        proof {
            let v = value as int;
            let q = (-v) / (modulus as int);
            vstd::arithmetic::div_mod::lemma_fundamental_div_mod(-v, modulus as int);
            if rest == 0 {
                assert(v == (-q) * modulus as int) by (nonlinear_arith)
                    requires
                        -v == modulus as int * q + rest as int,
                        rest == 0,
                ;
                vstd::arithmetic::div_mod::lemma_fundamental_div_mod_converse(
                    v,
                    modulus as int,
                    -q,
                    0,
                );
            } else {
                assert(v == (-q - 1) * modulus as int + (modulus as int - rest as int))
                    by (nonlinear_arith)
                    requires
                        -v == modulus as int * q + rest as int,
                ;
                vstd::arithmetic::div_mod::lemma_fundamental_div_mod_converse(
                    v,
                    modulus as int,
                    -q - 1,
                    modulus as int - rest as int,
                );
            }
        }
        if rest == 0 {
            0
        } else {
            modulus - rest
        }
    }
}

fn interval_contains(low: i128, high: i128, value: i128, modulus: u128) -> (r: bool)
    requires
        0 < modulus <= ADDRESS_MODULUS,
        -0x8000_0000 <= low <= 0,
        0 <= high <= 0x7fff_ffff,
        -0x8000_0000_0000_0000 <= value <= 0x7fff_ffff_ffff_ffff,
    ensures
        r == interval_hits(low as int, high as int, value as int, modulus as int),
{
    let residue = signed_residue(value, modulus);
    let low_residue = signed_residue(low, modulus);
    let delta = (residue + modulus - low_residue) % modulus;
    proof {
        let m = modulus as int;
        lemma_interval_hits(low as int, high as int, value as int, m);
        vstd::arithmetic::div_mod::lemma_sub_mod_noop(value as int, low as int, m);
        vstd::arithmetic::div_mod::lemma_mod_add_multiples_vanish(
            residue as int - low_residue as int,
            m,
        );
        assert(delta as int == (value - low) % m);
    }
    delta <= (high - low) as u128
}

/// No indices make the load, in its lane, touch what the store, in its lane,
/// writes.
pub open spec fn is_apart(store: AccessView, s: int, load: AccessView, l: int) -> bool {
    match lane_difference(store, s, load, l) {
        Some(d) => !interval_hits(
            -(load.width - 1),
            store.width - 1,
            d,
            step_of(store, load) as int,
        ),
        None => false,
    }
}

fn no_alias(store: &Access, s: usize, load: &Access, l: usize) -> (r: bool)
    requires
        access_fits(store@),
        access_fits(load@),
        s <= 4,
        l <= 4,
    ensures
        r == is_apart(store@, s as int, load@, l as int),
{
    let base = load.constant_offset as i128 - store.constant_offset as i128;
    let (ls, lane) = (load.terminal_stride as i128, l as i128);
    let (ss, earlier) = (store.terminal_stride as i128, s as i128);
    assert(0 <= ls * lane <= 4 * 0x7fff_ffff) by (nonlinear_arith)
        requires
            1 <= ls <= 0x7fff_ffff,
            0 <= lane <= 4,
    ;
    assert(0 <= ss * earlier <= 4 * 0x7fff_ffff) by (nonlinear_arith)
        requires
            1 <= ss <= 0x7fff_ffff,
            0 <= earlier <= 4,
    ;
    let up = ls * lane;
    let down = ss * earlier;
    let raised = base + up;
    let last = raised - down;
    let (min, max) = (i64::MIN as i128, i64::MAX as i128);
    if base < min || base > max || raised < min || raised > max || last < min || last > max {
        return false;
    }
    let step = find_step(store, load);
    let low = -(load.width as i128 - 1);
    let high = store.width as i128 - 1;
    !interval_contains(low, high, last, step)
}

// ---------------------------------------------------------------------------
// Lanes
// ---------------------------------------------------------------------------

/// The load access at the instruction, if it is one: `None` where the proof
/// fails, `Some(None)` where the instruction does not load.
pub open spec fn load_access(f: FuncView, inst: InstView, budget: Budget) -> Option<
    (Option<AccessView>, Budget),
> {
    match inst.kind {
        KindView::Load { ptr } => match inst.result {
            Some(r) => match access_of(f, ptr, f.value(r).ty, budget) {
                Some((a, b)) => Some((Some(a), b)),
                None => None,
            },
            None => None,
        },
        _ => Some((None, budget)),
    }
}

/// The load accesses among the first `n` instructions, behind those of the
/// list.
pub open spec fn loads_below(
    f: FuncView,
    insts: Seq<InstView>,
    list: Seq<AccessView>,
    budget: Budget,
    n: int,
) -> Option<(Seq<AccessView>, Budget)>
    decreases n,
{
    if n <= 0 {
        Some((list, budget))
    } else {
        match loads_below(f, insts, list, budget, n - 1) {
            Some((before, b)) => match load_access(f, insts[n - 1], b) {
                Some((Some(a), rest)) => Some((before.push(a), rest)),
                Some((None, rest)) => Some((before, rest)),
                None => None,
            },
            None => None,
        }
    }
}

/// The load accesses of the first `n` blocks.
pub open spec fn loads_upto(f: FuncView, blocks: Seq<BlockId>, budget: Budget, n: int) -> Option<
    (Seq<AccessView>, Budget),
>
    decreases n,
{
    if n <= 0 {
        Some((Seq::empty(), budget))
    } else {
        match loads_upto(f, blocks, budget, n - 1) {
            Some((before, b)) => {
                let insts = f.block(blocks[n - 1]).insts;
                loads_below(f, insts, before, b, insts.len() as int)
            },
            None => None,
        }
    }
}

/// The load does not touch what the store writes in an earlier lane.
pub open spec fn load_is_apart(
    store: AccessView,
    load: AccessView,
    counter: ValueId,
    factor: int,
) -> bool {
    load.global == store.global ==> load.terminal_index == counter && forall|s: int, l: int|
        0 <= s < l < factor ==> #[trigger] is_apart(store, s, load, l)
}

pub open spec fn all_apart(
    store: AccessView,
    list: Seq<AccessView>,
    counter: ValueId,
    factor: int,
) -> bool {
    forall|k: int|
        0 <= k < list.len() ==> load_is_apart(store, #[trigger] list[k], counter, factor)
}

/// The loads of the blocks do not touch what the store writes in an earlier
/// lane.
pub open spec fn lanes_are_independent(
    f: FuncView,
    store_ptr: ValueId,
    store_value: ValueId,
    counter: ValueId,
    blocks: Seq<BlockId>,
    factor: int,
) -> bool {
    match access_of(f, store_ptr, f.value(store_value).ty, no_budget_spent()) {
        Some((store, b)) => store.terminal_index == counter && match loads_upto(
            f,
            blocks,
            b,
            blocks.len() as int,
        ) {
            Some((list, _)) => all_apart(store, list, counter, factor),
            None => false,
        },
        None => false,
    }
}

pub open spec fn list_view(r: Option<(Vec<Access>, Budget)>) -> Option<(Seq<AccessView>, Budget)> {
    match r {
        Some((list, b)) => Some((accesses_view(list@), b)),
        None => None,
    }
}

pub open spec fn all_fit(list: Seq<Access>) -> bool {
    forall|k: int| 0 <= k < list.len() ==> access_fits((#[trigger] list[k])@)
}

fn analyze_load(func: &Function, inst: &Inst, budget: Budget) -> (r: Option<
    (Option<Access>, Budget),
>)
    requires
        func@.wf(),
        edit::inst_wf(inst@, func@.blocks.len(), func@.values.len()),
    ensures
        match r {
            Some((Some(a), b)) => load_access(func@, inst@, budget) == Some((Some(a@), b))
                && access_fits(a@),
            Some((None, b)) => load_access(func@, inst@, budget) == Some(
                (None::<AccessView>, b),
            ),
            None => load_access(func@, inst@, budget) is None,
        },
{
    match inst.kind {
        InstKind::Load { ptr } => {
            let v = inst.result?;
            assert(func.values@[v.0 as int]@ == func@.value(v));
            let (a, b) = analyze_global_memory_access(func, ptr, &func.values[v.0].ty, budget)?;
            Some((Some(a), b))
        },
        _ => Some((None, budget)),
    }
}

#[verifier::loop_isolation(false)]
fn collect_block_loads(func: &Function, b: BlockId, list: Vec<Access>, budget: Budget) -> (r: Option<
    (Vec<Access>, Budget),
>)
    requires
        func@.wf(),
        func@.has_block(b),
        all_fit(list@),
    ensures
        list_view(r) == loads_below(
            func@,
            func@.block(b).insts,
            accesses_view(list@),
            budget,
            func@.block(b).insts.len() as int,
        ),
        r matches Some((l, _)) ==> all_fit(l@),
{
    let ghost f = func@;
    let ghost insts = f.block(b).insts;
    let ghost start = accesses_view(list@);
    let mut list = list;
    let mut rest = budget;
    let n = func.blocks[b.0].insts.len();
    for i in 0..n
        invariant
            n == insts.len(),
            all_fit(list@),
            loads_below(f, insts, start, budget, i as int) == Some((accesses_view(list@), rest)),
    {
        let inst = &func.blocks[b.0].insts[i];
        assert(inst@ == f.inst(b, i as int));
        proof {
            query::lemma_inst_wf(f, b, i as int);
        }
        match analyze_load(func, inst, rest) {
            Some((Some(a), left)) => {
                let ghost before = accesses_view(list@);
                list.push(a);
                assert(accesses_view(list@) =~= before.push(a@));
                rest = left;
            },
            Some((None, left)) => {
                rest = left;
            },
            None => {
                proof {
                    lemma_loads_stop(f, insts, start, budget, i + 1, n as int);
                }
                return None;
            },
        }
    }
    Some((list, rest))
}

proof fn lemma_loads_stop(
    f: FuncView,
    insts: Seq<InstView>,
    list: Seq<AccessView>,
    budget: Budget,
    i: int,
    n: int,
)
    requires
        i <= n,
        loads_below(f, insts, list, budget, i) is None,
    ensures
        loads_below(f, insts, list, budget, n) is None,
    decreases n,
{
    if i < n {
        lemma_loads_stop(f, insts, list, budget, i, n - 1);
    }
}

proof fn lemma_blocks_stop(f: FuncView, blocks: Seq<BlockId>, budget: Budget, i: int, n: int)
    requires
        i <= n,
        loads_upto(f, blocks, budget, i) is None,
    ensures
        loads_upto(f, blocks, budget, n) is None,
    decreases n,
{
    if i < n {
        lemma_blocks_stop(f, blocks, budget, i, n - 1);
    }
}

#[verifier::loop_isolation(false)]
fn collect_loads(func: &Function, blocks: &Vec<BlockId>, budget: Budget) -> (r: Option<
    (Vec<Access>, Budget),
>)
    requires
        func@.wf(),
        forall|k: int| 0 <= k < blocks.len() ==> func@.has_block(#[trigger] blocks@[k]),
    ensures
        list_view(r) == loads_upto(func@, blocks@, budget, blocks.len() as int),
        r matches Some((l, _)) ==> all_fit(l@),
{
    let ghost f = func@;
    let mut list: Vec<Access> = Vec::new();
    let mut rest = budget;
    let n = blocks.len();
    assert(accesses_view(list@) =~= Seq::<AccessView>::empty());
    for k in 0..n
        invariant
            all_fit(list@),
            loads_upto(f, blocks@, budget, k as int) == Some((accesses_view(list@), rest)),
    {
        assert(f.has_block(blocks@[k as int]));
        match collect_block_loads(func, blocks[k], list, rest) {
            Some((more, left)) => {
                list = more;
                rest = left;
            },
            None => {
                proof {
                    lemma_blocks_stop(f, blocks@, budget, k + 1, n as int);
                }
                return None;
            },
        }
    }
    Some((list, rest))
}

#[verifier::loop_isolation(false)]
fn check_load(store: &Access, load: &Access, counter: ValueId, factor: usize) -> (r: bool)
    requires
        access_fits(store@),
        access_fits(load@),
        factor <= 4,
    ensures
        r == load_is_apart(store@, load@, counter, factor as int),
{
    if load.global != store.global {
        return true;
    }
    if load.terminal_index != counter {
        return false;
    }
    for l in 0..factor
        invariant
            forall|s: int, m: int|
                0 <= s < m < l ==> #[trigger] is_apart(store@, s, load@, m),
    {
        for s in 0..l
            invariant
                forall|x: int| 0 <= x < s ==> #[trigger] is_apart(store@, x, load@, l as int),
        {
            if !no_alias(store, s, load, l) {
                assert(!is_apart(store@, s as int, load@, l as int));
                return false;
            }
        }
    }
    true
}

/// Whether the loads of the blocks do not touch what the store writes in an
/// earlier lane.
#[verifier::loop_isolation(false)]
pub fn proves_lane_independence(
    func: &Function,
    store_ptr: ValueId,
    store_value: ValueId,
    counter: ValueId,
    blocks: &Vec<BlockId>,
    factor: usize,
) -> (r: bool)
    requires
        func@.wf(),
        func@.has_value(store_ptr),
        func@.has_value(store_value),
        forall|k: int| 0 <= k < blocks.len() ==> func@.has_block(#[trigger] blocks@[k]),
        factor <= 4,
    ensures
        r == lanes_are_independent(
            func@,
            store_ptr,
            store_value,
            counter,
            blocks@,
            factor as int,
        ),
{
    let budget = Budget { type_nodes: 0, work: 0 };
    assert(func.values@[store_value.0 as int]@ == func@.value(store_value));
    let (store, rest) = match analyze_global_memory_access(
        func,
        store_ptr,
        &func.values[store_value.0].ty,
        budget,
    ) {
        Some(x) => x,
        None => return false,
    };
    if store.terminal_index != counter {
        return false;
    }
    let (list, left) = match collect_loads(func, blocks, rest) {
        Some(x) => x,
        None => return false,
    };
    let n = list.len();
    let ghost views = accesses_view(list@);
    assert(views.len() == n);
    assert(loads_upto(func@, blocks@, rest, blocks@.len() as int) == Some((views, left)));
    for k in 0..n
        invariant
            forall|j: int|
                0 <= j < k ==> load_is_apart(
                    store@,
                    #[trigger] views[j],
                    counter,
                    factor as int,
                ),
    {
        assert(views[k as int] == list@[k as int]@);
        assert(access_fits(list@[k as int]@));
        if !check_load(&store, &list[k], counter, factor) {
            assert(!load_is_apart(store@, views[k as int], counter, factor as int));
            assert(!all_apart(store@, views, counter, factor as int));
            return false;
        }
    }
    true
}

} // verus!
