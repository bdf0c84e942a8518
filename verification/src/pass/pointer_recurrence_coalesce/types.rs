//! Sizes of types, within a budget.
//!
//! A search that runs out of its budget gives up as a whole: the functions
//! return `None` then, and `Some` with an inner `None` where only the question
//! at hand has no answer.
use vstd::prelude::*;

use crate::ir::{FuncView, Function, Type, ValueId};

verus! {

pub const MAX_PROOF_WORK: usize = 262144;

pub const MAX_TYPE_NODES: usize = 4096;

/// What a search has used.
#[derive(Clone, Copy, PartialEq, Eq, Structural)]
pub struct Budget {
    pub work: usize,
    pub type_nodes: usize,
}

/// The budget with more work done, if there is room for it.
pub open spec fn worked(b: Budget, amount: nat) -> Option<Budget> {
    if b.work + amount <= MAX_PROOF_WORK {
        Some(Budget { work: (b.work + amount) as usize, ..b })
    } else {
        None
    }
}

pub fn spend(b: Budget, amount: usize) -> (r: Option<Budget>)
    ensures
        r == worked(b, amount as nat),
{
    if b.work <= MAX_PROOF_WORK && amount <= MAX_PROOF_WORK - b.work {
        Some(Budget { type_nodes: b.type_nodes, work: b.work + amount })
    } else {
        None
    }
}

/// The budget with one more type node visited, if there is room for it.
pub open spec fn visited(b: Budget) -> Option<Budget> {
    if b.type_nodes + 1 <= MAX_TYPE_NODES {
        worked(Budget { type_nodes: (b.type_nodes + 1) as usize, ..b }, 1)
    } else {
        None
    }
}

fn spend_type(b: Budget) -> (r: Option<Budget>)
    ensures
        r == visited(b),
{
    if b.type_nodes < MAX_TYPE_NODES {
        spend(Budget { type_nodes: b.type_nodes + 1, work: b.work }, 1)
    } else {
        None
    }
}

/// Whether the types are equal.
pub open spec fn equal_types(a: Type, b: Type, budget: Budget) -> Option<(bool, Budget)>
    decreases a,
{
    match visited(budget) {
        Some(rest) => match (a, b) {
            (Type::Void, Type::Void) => Some((true, rest)),
            (Type::I1, Type::I1) => Some((true, rest)),
            (Type::I32, Type::I32) => Some((true, rest)),
            (Type::F32, Type::F32) => Some((true, rest)),
            (Type::Ptr(x), Type::Ptr(y)) => equal_types(*x, *y, rest),
            (Type::Array { elem: x, len: n }, Type::Array { elem: y, len: m }) => if n == m {
                equal_types(*x, *y, rest)
            } else {
                Some((false, rest))
            },
            _ => Some((false, rest)),
        },
        None => None,
    }
}

pub fn types_equal_bounded(a: &Type, b: &Type, budget: Budget) -> (r: Option<(bool, Budget)>)
    ensures
        r == equal_types(*a, *b, budget),
    decreases a,
{
    let rest = spend_type(budget)?;
    match (a, b) {
        (Type::Void, Type::Void) => Some((true, rest)),
        (Type::I1, Type::I1) => Some((true, rest)),
        (Type::I32, Type::I32) => Some((true, rest)),
        (Type::F32, Type::F32) => Some((true, rest)),
        (Type::Ptr(x), Type::Ptr(y)) => types_equal_bounded(&**x, &**y, rest),
        (Type::Array { elem: x, len: n }, Type::Array { elem: y, len: m }) => if *n == *m {
            types_equal_bounded(&**x, &**y, rest)
        } else {
            Some((false, rest))
        },
        _ => Some((false, rest)),
    }
}

/// Types found equal are equal.
pub proof fn lemma_equal_types(a: Type, b: Type, budget: Budget)
    requires
        equal_types(a, b, budget) matches Some((true, _)),
    ensures
        a == b,
    decreases a,
{
    let rest = visited(budget)->0;
    match (a, b) {
        (Type::Ptr(x), Type::Ptr(y)) => {
            lemma_equal_types(*x, *y, rest);
        },
        (Type::Array { elem: x, len: n }, Type::Array { elem: y, len: m }) => {
            lemma_equal_types(*x, *y, rest);
        },
        _ => {},
    }
}

/// The number of bytes, if it is small.
pub open spec fn small(bytes: int) -> Option<i64> {
    if bytes <= i32::MAX {
        Some(bytes as i64)
    } else {
        None
    }
}

/// The size of so many elements of a type.
pub open spec fn sized(ty: Type, elements: int, budget: Budget) -> Option<(Option<i64>, Budget)>
    decreases ty,
{
    match visited(budget) {
        Some(rest) => match ty {
            Type::Void => Some((Some(0i64), rest)),
            Type::I1 => Some((small(elements * 4), rest)),
            Type::I32 => Some((small(elements * 4), rest)),
            Type::F32 => Some((small(elements * 4), rest)),
            Type::Ptr(_) => Some((small(elements * 8), rest)),
            Type::Array { elem, len } => if len <= i64::MAX && elements * len <= i32::MAX {
                sized(*elem, elements * len, rest)
            } else {
                Some((None, rest))
            },
        },
        None => None,
    }
}

fn size_elements(ty: &Type, elements: i64, budget: Budget) -> (r: Option<(Option<i64>, Budget)>)
    requires
        0 <= elements <= i32::MAX,
    ensures
        r == sized(*ty, elements as int, budget),
        r matches Some((Some(s), _)) ==> 0 <= s <= i32::MAX,
    decreases ty,
{
    let rest = spend_type(budget)?;
    match ty {
        Type::Void => Some((Some(0), rest)),
        Type::Ptr(_) => if elements * 8 <= i32::MAX as i64 {
            Some((Some(elements * 8), rest))
        } else {
            Some((None, rest))
        },
        Type::Array { elem, len } => {
            if *len as u128 > i64::MAX as u128 {
                return Some((None, rest));
            }
            let count = *len as u128;
            assert(0 <= elements as u128 * count <= i32::MAX * i64::MAX) by (nonlinear_arith)
                requires
                    0 <= elements <= i32::MAX,
                    0 <= count <= i64::MAX,
            ;
            let total = elements as u128 * count;
            if total <= i32::MAX as u128 {
                size_elements(&**elem, total as i64, rest)
            } else {
                Some((None, rest))
            }
        },
        _ => if elements * 4 <= i32::MAX as i64 {
            Some((Some(elements * 4), rest))
        } else {
            Some((None, rest))
        },
    }
}

/// The size of a type.
pub open spec fn size_of(ty: Type, budget: Budget) -> Option<(Option<i64>, Budget)> {
    sized(ty, 1, budget)
}

pub fn checked_type_size(ty: &Type, budget: Budget) -> (r: Option<(Option<i64>, Budget)>)
    ensures
        r == size_of(*ty, budget),
        r matches Some((Some(s), _)) ==> 0 <= s <= i32::MAX,
{
    size_elements(ty, 1, budget)
}

/// What a pointer or an array holds.
pub open spec fn inner_of(ty: Type) -> Option<Type> {
    match ty {
        Type::Ptr(inner) => Some(*inner),
        Type::Array { elem, .. } => Some(*elem),
        _ => None,
    }
}

pub open spec fn at_least_one(size: i64) -> i64 {
    if size < 1 {
        1
    } else {
        size
    }
}

/// The sizes of what `count` more indices lead to, behind those in `list`, and
/// the type that they lead to.
pub open spec fn strides_into(list: Seq<i64>, ty: Type, count: nat, b: Budget) -> Option<
    (Option<(Seq<i64>, Type)>, Budget),
>
    decreases count,
{
    if count == 0 {
        Some((Some((list, ty)), b))
    } else {
        match worked(b, 1) {
            None => None,
            Some(b1) => match inner_of(ty) {
                None => Some((None, b1)),
                Some(inner) => match size_of(inner, b1) {
                    None => None,
                    Some((None, b2)) => Some((None, b2)),
                    Some((Some(size), b2)) => strides_into(
                        list.push(at_least_one(size)),
                        inner,
                        (count - 1) as nat,
                        b2,
                    ),
                },
            },
        }
    }
}

/// Whether a single index can lead from the base to the result.
pub open spec fn leads_to(base: Type, result: Type, b: Budget) -> Option<(bool, Budget)> {
    match equal_types(base, result, b) {
        None => None,
        Some((same, b1)) => match base {
            Type::Array { elem, .. } => match equal_types(*elem, result, b1) {
                None => None,
                Some((element, b2)) => Some((same || element, b2)),
            },
            _ => Some((same, b1)),
        },
    }
}

/// The number of bytes that each index of an address computation stands for.
pub open spec fn strides_of(
    f: FuncView,
    base: ValueId,
    result: ValueId,
    count: nat,
    b: Budget,
) -> Option<(Option<Seq<i64>>, Budget)> {
    match (f.value(base).ty, f.value(result).ty) {
        (Type::Ptr(x), Type::Ptr(y)) => if count == 0 {
            Some((None, b))
        } else if count == 1 {
            match leads_to(*x, *y, b) {
                None => None,
                Some((false, b1)) => Some((None, b1)),
                Some((true, b1)) => match size_of(*y, b1) {
                    None => None,
                    Some((None, b2)) => Some((None, b2)),
                    Some((Some(size), b2)) => Some((Some(seq![at_least_one(size)]), b2)),
                },
            }
        } else {
            match strides_into(Seq::empty(), f.value(base).ty, count, b) {
                None => None,
                Some((None, b1)) => Some((None, b1)),
                Some((Some((list, ty)), b1)) => match equal_types(ty, *y, b1) {
                    None => None,
                    Some((false, b2)) => Some((None, b2)),
                    Some((true, b2)) => Some((Some(list), b2)),
                },
            }
        },
        _ => Some((None, b)),
    }
}

pub open spec fn strides_fit(list: Seq<i64>) -> bool {
    forall|k: int| 0 <= k < list.len() ==> 1 <= #[trigger] list[k] <= i32::MAX
}

pub open spec fn list_view(r: Option<(Option<Vec<i64>>, Budget)>) -> Option<
    (Option<Seq<i64>>, Budget),
> {
    match r {
        Some((Some(list), b)) => Some((Some(list@), b)),
        Some((None, b)) => Some((None, b)),
        None => None,
    }
}

fn check_single_index(base: &Type, result: &Type, b: Budget) -> (r: Option<(bool, Budget)>)
    ensures
        r == leads_to(*base, *result, b),
{
    let (same, b1) = types_equal_bounded(base, result, b)?;
    match base {
        Type::Array { elem, .. } => {
            let (element, b2) = types_equal_bounded(&**elem, result, b1)?;
            Some((same || element, b2))
        },
        _ => Some((same, b1)),
    }
}

fn collect_strides(ty: &Type, result: &Type, count: usize, b: Budget) -> (r: Option<
    (Option<Vec<i64>>, Budget),
>)
    ensures
        list_view(r) == (match strides_into(Seq::empty(), *ty, count as nat, b) {
            None => None,
            Some((None, b1)) => Some((None, b1)),
            Some((Some((list, t)), b1)) => match equal_types(t, *result, b1) {
                None => None,
                Some((false, b2)) => Some((None, b2)),
                Some((true, b2)) => Some((Some(list), b2)),
            },
        }),
        r matches Some((Some(list), _)) ==> list.len() == count && strides_fit(list@),
{
    let mut current = ty;
    let mut list: Vec<i64> = Vec::new();
    let mut budget = b;
    assert(list@ =~= Seq::empty());
    for k in 0..count
        invariant
            list.len() == k,
            strides_fit(list@),
            strides_into(Seq::empty(), *ty, count as nat, b) == strides_into(
                list@,
                *current,
                (count - k) as nat,
                budget,
            ),
    {
        budget = spend(budget, 1)?;
        current = match current {
            Type::Ptr(inner) => &**inner,
            Type::Array { elem, .. } => &**elem,
            _ => return Some((None, budget)),
        };
        let (size, rest) = checked_type_size(current, budget)?;
        budget = rest;
        match size {
            Some(s) => {
                list.push(
                    if s < 1 {
                        1
                    } else {
                        s
                    },
                );
            },
            None => return Some((None, budget)),
        }
    }
    let (same, rest) = types_equal_bounded(current, result, budget)?;
    if same {
        Some((Some(list), rest))
    } else {
        Some((None, rest))
    }
}

pub fn typed_gep_byte_strides(
    func: &Function,
    base: ValueId,
    result: ValueId,
    count: usize,
    b: Budget,
) -> (r: Option<(Option<Vec<i64>>, Budget)>)
    requires
        func@.has_value(base),
        func@.has_value(result),
    ensures
        list_view(r) == strides_of(func@, base, result, count as nat, b),
        r matches Some((Some(list), _)) ==> list.len() == count && strides_fit(list@),
{
    assert(func.values@[base.0 as int]@ == func@.value(base));
    assert(func.values@[result.0 as int]@ == func@.value(result));
    match (&func.values[base.0].ty, &func.values[result.0].ty) {
        (Type::Ptr(x), Type::Ptr(y)) => {
            if count == 0 {
                return Some((None, b));
            }
            if count == 1 {
                let (fits, b1) = check_single_index(&**x, &**y, b)?;
                if !fits {
                    return Some((None, b1));
                }
                let (size, b2) = checked_type_size(&**y, b1)?;
                return match size {
                    Some(s) => {
                        let s = if s < 1 {
                            1
                        } else {
                            s
                        };
                        let list = vec![s];
                        assert(list@ =~= seq![s]);
                        Some((Some(list), b2))
                    },
                    None => Some((None, b2)),
                };
            }
            collect_strides(&func.values[base.0].ty, &**y, count, b)
        },
        _ => Some((None, b)),
    }
}

} // verus!
