//! Addresses as sums: a root, multiples of values, and a constant.
use vstd::prelude::*;

use crate::edit;
use crate::ir::{BinaryOp, FuncView, Function, InstKind, InstView, KindView, Type, ValueId};
use crate::loops;
use crate::loops::{analyze_i32_induction, LoopView, NaturalLoop};
use crate::pass::pointer_recurrence_coalesce::types;
use crate::pass::pointer_recurrence_coalesce::types::{spend, typed_gep_byte_strides, Budget};
use crate::pass::reduction_jam::lanes;
use crate::pass::reduction_jam::lanes::nonnegative_gcd;
use crate::query;
use crate::util;
use crate::util::{const_i32, defining_inst};

verus! {

pub const MAX_GEP_CHAIN_DEPTH: usize = 64;

pub const MAX_GEP_INDICES: usize = 128;

pub const MAX_AFFINE_DEPTH: usize = 32;

pub const WORD: u128 = 0x1_0000_0000;

// ---------------------------------------------------------------------------
// Ranges of counters
// ---------------------------------------------------------------------------

/// The integer that a value of integer type is known to be.
pub open spec fn constant_of(f: FuncView, v: ValueId) -> Option<i32> {
    if f.has_value(v) && f.value(v).ty == Type::I32 {
        util::const_i32_of(f, v)
    } else {
        None
    }
}

pub fn constant_i32(func: &Function, v: ValueId) -> (r: Option<i32>)
    ensures
        r == constant_of(func@, v),
{
    if v.0 < func.values.len() {
        assert(func.values@[v.0 as int]@ == func@.value(v));
        match func.values[v.0].ty {
            Type::I32 => const_i32(func, v),
            _ => None,
        }
    } else {
        None
    }
}

/// The least integer that is `initial` modulo the modulus.
pub open spec fn least_like(initial: int, modulus: int) -> int {
    i32::MIN + (initial - i32::MIN) % modulus
}

/// The greatest integer that is `initial` modulo the modulus.
pub open spec fn greatest_like(initial: int, modulus: int) -> int {
    i32::MAX - (i32::MAX - initial) % modulus
}

/// A counter that starts at `initial` and steps by `step`, wrapping round, only
/// has values that are `initial` modulo this.
pub open spec fn modulus_of(step: i32) -> nat {
    lanes::gcd(lanes::magnitude(step as int), WORD as nat)
}

/// The range of a counter with a constant start.
pub open spec fn range_of(f: FuncView, l: LoopView, phi: ValueId) -> Option<(i64, i64)> {
    match loops::induction_of(f, l, phi) {
        Some(iv) => match constant_of(f, iv.initial) {
            Some(initial) => {
                let m = modulus_of(iv.step) as int;
                Some((least_like(initial as int, m) as i64, greatest_like(initial as int, m) as i64))
            },
            None => None,
        },
        None => None,
    }
}

/// The ranges with those of the first `n` instructions of a header.
pub open spec fn ranges_below(
    f: FuncView,
    l: LoopView,
    insts: Seq<InstView>,
    ranges: Seq<Option<(i64, i64)>>,
    b: Budget,
    n: int,
) -> Option<(Seq<Option<(i64, i64)>>, Budget)>
    decreases n,
{
    if n <= 0 {
        Some((ranges, b))
    } else {
        match ranges_below(f, l, insts, ranges, b, n - 1) {
            None => None,
            Some((before, b1)) => match types::worked(b1, 1) {
                None => None,
                Some(b2) => match insts[n - 1].result {
                    Some(phi) => match range_of(f, l, phi) {
                        Some(range) => Some((before.update(phi.0 as int, Some(range)), b2)),
                        None => Some((before, b2)),
                    },
                    None => Some((before, b2)),
                },
            },
        }
    }
}

/// The ranges of the counters of the first `n` loops.
pub open spec fn ranges_of(f: FuncView, list: Seq<LoopView>, b: Budget, n: int) -> Option<
    (Seq<Option<(i64, i64)>>, Budget),
>
    decreases n,
{
    if n <= 0 {
        Some((Seq::new(f.values.len(), |v: int| None), b))
    } else {
        match ranges_of(f, list, b, n - 1) {
            None => None,
            Some((before, b1)) => {
                let insts = f.block(list[n - 1].header).insts;
                ranges_below(f, list[n - 1], insts, before, b1, insts.len() as int)
            },
        }
    }
}

/// The range is one of integers.
pub open spec fn range_fits(range: Option<(i64, i64)>) -> bool {
    range matches Some((low, high)) ==> i32::MIN <= low <= i32::MAX && i32::MIN <= high <= i32::MAX
}

pub open spec fn ranges_fit(ranges: Seq<Option<(i64, i64)>>) -> bool {
    forall|v: int| 0 <= v < ranges.len() ==> range_fits(#[trigger] ranges[v])
}

fn find_range(func: &Function, l: &NaturalLoop, phi: ValueId) -> (r: Option<(i64, i64)>)
    requires
        func@.wf(),
        l@.within(func@.blocks.len()),
    ensures
        r == range_of(func@, l@, phi),
        range_fits(r),
{
    let iv = analyze_i32_induction(func, l, phi)?;
    let initial = constant_i32(func, iv.initial)?;
    let m = if iv.step < 0 {
        (-(iv.step as i64)) as u128
    } else {
        iv.step as u128
    };
    assert(m == lanes::magnitude(iv.step as int));
    let modulus = nonnegative_gcd(m, WORD);
    let low = (initial as i64 - i32::MIN as i64) as u128;
    let high = (i32::MAX as i64 - initial as i64) as u128;
    assert(0 <= low % modulus <= low && 0 <= high % modulus <= high) by (nonlinear_arith)
        requires
            modulus > 0,
    ;
    let low_rest = (low % modulus) as i64;
    let high_rest = (high % modulus) as i64;
    Some((i32::MIN as i64 + low_rest, i32::MAX as i64 - high_rest))
}

pub open spec fn ranges_view(r: Option<(Vec<Option<(i64, i64)>>, Budget)>) -> Option<
    (Seq<Option<(i64, i64)>>, Budget),
> {
    match r {
        Some((list, b)) => Some((list@, b)),
        None => None,
    }
}

fn add_ranges(
    func: &Function,
    l: &NaturalLoop,
    ranges: &mut Vec<Option<(i64, i64)>>,
    b: Budget,
) -> (r: Option<Budget>)
    requires
        func@.wf(),
        l@.within(func@.blocks.len()),
        old(ranges).len() == func@.values.len(),
        ranges_fit(old(ranges)@),
    ensures
        ({
            let insts = func@.block(l@.header).insts;
            let want = ranges_below(func@, l@, insts, old(ranges)@, b, insts.len() as int);
            match r {
                Some(rest) => want == Some((final(ranges)@, rest)),
                None => want is None,
            }
        }),
        final(ranges).len() == old(ranges).len(),
        ranges_fit(final(ranges)@),
{
    let ghost f = func@;
    let ghost start = ranges@;
    let ghost insts = f.block(l@.header).insts;
    let mut budget = b;
    let n = func.blocks[l.header.0].insts.len();
    for i in 0..n
        invariant
            func@ == f,
            f.wf(),
            l@.within(f.blocks.len()),
            insts == f.block(l@.header).insts,
            n == insts.len(),
            ranges.len() == f.values.len(),
            ranges.len() == start.len(),
            ranges_fit(ranges@),
            start == old(ranges)@,
            ranges_below(f, l@, insts, start, b, i as int) == Some((ranges@, budget)),
    {
        let inst = &func.blocks[l.header.0].insts[i];
        assert(inst@ == f.inst(l@.header, i as int));
        proof {
            query::lemma_inst_wf(f, l@.header, i as int);
        }
        match spend(budget, 1) {
            Some(rest) => {
                budget = rest;
            },
            None => {
                proof {
                    lemma_ranges_stop(f, l@, insts, start, b, i + 1, n as int);
                }
                return None;
            },
        }
        if let Some(phi) = inst.result {
            if let Some(range) = find_range(func, l, phi) {
                ranges.set(phi.0, Some(range));
            }
        }
    }
    Some(budget)
}

proof fn lemma_ranges_stop(
    f: FuncView,
    l: LoopView,
    insts: Seq<InstView>,
    ranges: Seq<Option<(i64, i64)>>,
    b: Budget,
    i: int,
    n: int,
)
    requires
        i <= n,
        ranges_below(f, l, insts, ranges, b, i) is None,
    ensures
        ranges_below(f, l, insts, ranges, b, n) is None,
    decreases n - i,
{
    if i < n {
        lemma_ranges_stop(f, l, insts, ranges, b, i, n - 1);
    }
}

proof fn lemma_loop_ranges_stop(f: FuncView, list: Seq<LoopView>, b: Budget, i: int, n: int)
    requires
        i <= n,
        ranges_of(f, list, b, i) is None,
    ensures
        ranges_of(f, list, b, n) is None,
    decreases n - i,
{
    if i < n {
        lemma_loop_ranges_stop(f, list, b, i, n - 1);
    }
}

pub fn collect_induction_congruence_ranges(
    func: &Function,
    list: &Vec<NaturalLoop>,
    b: Budget,
) -> (r: Option<(Vec<Option<(i64, i64)>>, Budget)>)
    requires
        func@.wf(),
        forall|k: int| 0 <= k < list.len() ==> (#[trigger] list@[k])@.within(func@.blocks.len()),
    ensures
        ranges_view(r) == ranges_of(
            func@,
            loops::loops_view(list@),
            b,
            list.len() as int,
        ),
        r matches Some((ranges, _)) ==> ranges.len() == func@.values.len() && ranges_fit(ranges@),
{
    let ghost f = func@;
    let ghost views = loops::loops_view(list@);
    let mut ranges: Vec<Option<(i64, i64)>> = Vec::new();
    let size = func.values.len();
    assert(size == f.values.len());
    for v in 0..size
        invariant
            ranges.len() == v,
            forall|j: int| 0 <= j < v ==> #[trigger] ranges@[j] is None,
    {
        ranges.push(None);
    }
    assert(ranges@ =~= Seq::new(f.values.len(), |v: int| None));
    let mut budget = b;
    let n = list.len();
    for k in 0..n
        invariant
            func@ == f,
            f.wf(),
            n == list.len(),
            views == loops::loops_view(list@),
            forall|k: int| 0 <= k < list.len() ==> (#[trigger] list@[k])@.within(f.blocks.len()),
            ranges.len() == f.values.len(),
            ranges_fit(ranges@),
            ranges_of(f, views, b, k as int) == Some((ranges@, budget)),
    {
        assert(views[k as int] == list@[k as int]@);
        assert(list@[k as int]@.within(f.blocks.len()));
        match add_ranges(func, &list[k], &mut ranges, budget) {
            Some(rest) => {
                budget = rest;
            },
            None => {
                proof {
                    lemma_loop_ranges_stop(f, views, b, k + 1, n as int);
                }
                return None;
            },
        }
    }
    Some((ranges, budget))
}

// ---------------------------------------------------------------------------
// Indices
// ---------------------------------------------------------------------------

/// An index: a value, if any, and a constant.
#[derive(Clone, Copy, PartialEq, Eq, Structural)]
pub struct Affine {
    pub term: Option<ValueId>,
    pub constant: i64,
}

/// The operation adds a constant to a value.
pub open spec fn extracted(f: FuncView, v: ValueId) -> Option<(ValueId, int)> {
    match util::def_kind(f, v) {
        Some(KindView::Binary { op: BinaryOp::Iadd, lhs, rhs }) => match constant_of(f, rhs) {
            Some(c) => Some((lhs, c as int)),
            None => match constant_of(f, lhs) {
                Some(c) => Some((rhs, c as int)),
                None => None,
            },
        },
        Some(KindView::Binary { op: BinaryOp::Isub, lhs, rhs }) => match constant_of(f, rhs) {
            Some(c) => Some((lhs, -(c as int))),
            None => None,
        },
        _ => None,
    }
}

/// No value of the index leaves the range of the integers.
pub open spec fn does_not_wrap(
    term: Option<ValueId>,
    constant: int,
    ranges: Seq<Option<(i64, i64)>>,
) -> bool {
    match term {
        None => i32::MIN <= constant <= i32::MAX,
        Some(t) => match ranges[t.0 as int] {
            Some((low, high)) => i32::MIN <= low + constant && high + constant <= i32::MAX,
            None => constant == 0,
        },
    }
}

/// The index as a value and a constant. Where an addition could wrap round, its
/// result as a whole is the value.
pub open spec fn affine_of(
    f: FuncView,
    ranges: Seq<Option<(i64, i64)>>,
    v: ValueId,
    fuel: nat,
    b: Budget,
) -> Option<(Option<Affine>, Budget)>
    decreases fuel,
{
    if fuel == 0 {
        Some((None, b))
    } else {
        match types::worked(b, 1) {
            None => None,
            Some(b1) => if f.value(v).ty != Type::I32 {
                Some((None, b1))
            } else {
                match constant_of(f, v) {
                    Some(c) => Some((Some(Affine { term: None, constant: c as i64 }), b1)),
                    None => {
                        let whole = Affine { term: Some(v), constant: 0 };
                        match extracted(f, v) {
                            None => Some((Some(whole), b1)),
                            Some((base, c)) => match affine_of(
                                f,
                                ranges,
                                base,
                                (fuel - 1) as nat,
                                b1,
                            ) {
                                None => None,
                                Some((None, b2)) => Some((Some(whole), b2)),
                                Some((Some(a), b2)) => if does_not_wrap(
                                    a.term,
                                    a.constant + c,
                                    ranges,
                                ) {
                                    Some(
                                        (
                                            Some(
                                                Affine {
                                                    term: a.term,
                                                    constant: (a.constant + c) as i64,
                                                },
                                            ),
                                            b2,
                                        ),
                                    )
                                } else {
                                    Some((Some(whole), b2))
                                },
                            },
                        }
                    },
                }
            },
        }
    }
}

/// The constant is a difference of integers.
pub open spec fn affine_fits(a: Option<Affine>, nv: nat) -> bool {
    a matches Some(x) ==> -0x1_0000_0000 <= x.constant <= 0x1_0000_0000 && (x.term matches Some(t)
        ==> t.0 < nv)
}

fn extract(func: &Function, v: ValueId) -> (r: Option<(ValueId, i64)>)
    requires
        func@.wf(),
        func@.has_value(v),
    ensures
        match r {
            Some((base, c)) => extracted(func@, v) == Some((base, c as int)) && func@.has_value(
                base,
            ) && -0x8000_0000 <= c <= 0x8000_0000,
            None => extracted(func@, v) is None,
        },
{
    proof {
        loops::lemma_def_kind_wf(func@, v);
    }
    match defining_inst(func, v) {
        Some(InstKind::Binary { op, lhs, rhs }) => match op {
            BinaryOp::Iadd => match constant_i32(func, *rhs) {
                Some(c) => Some((*lhs, c as i64)),
                None => match constant_i32(func, *lhs) {
                    Some(c) => Some((*rhs, c as i64)),
                    None => None,
                },
            },
            BinaryOp::Isub => match constant_i32(func, *rhs) {
                Some(c) => Some((*lhs, -(c as i64))),
                None => None,
            },
            _ => None,
        },
        _ => None,
    }
}

fn affine_is_i32_nowrap(term: Option<ValueId>, constant: i64, ranges: &Vec<Option<(i64, i64)>>) -> (r:
    bool)
    requires
        ranges_fit(ranges@),
        -0x2_0000_0000 <= constant <= 0x2_0000_0000,
        term matches Some(t) ==> t.0 < ranges.len(),
    ensures
        r == does_not_wrap(term, constant as int, ranges@),
        r ==> -0x1_0000_0000 <= constant <= 0x1_0000_0000,
{
    match term {
        None => i32::MIN as i64 <= constant && constant <= i32::MAX as i64,
        Some(t) => {
            assert(range_fits(ranges@[t.0 as int]));
            match ranges[t.0] {
                Some((low, high)) => i32::MIN as i64 <= low + constant && high + constant
                    <= i32::MAX as i64,
                None => constant == 0,
            }
        },
    }
}

fn analyze_affine_index(
    func: &Function,
    ranges: &Vec<Option<(i64, i64)>>,
    v: ValueId,
    fuel: usize,
    b: Budget,
) -> (r: Option<(Option<Affine>, Budget)>)
    requires
        func@.wf(),
        func@.has_value(v),
        ranges.len() == func@.values.len(),
        ranges_fit(ranges@),
    ensures
        r == affine_of(func@, ranges@, v, fuel as nat, b),
        r matches Some((a, _)) ==> affine_fits(a, func@.values.len()),
    decreases fuel,
{
    if fuel == 0 {
        return Some((None, b));
    }
    let b1 = spend(b, 1)?;
    assert(func.values@[v.0 as int]@ == func@.value(v));
    match func.values[v.0].ty {
        Type::I32 => {},
        _ => return Some((None, b1)),
    }
    if let Some(c) = constant_i32(func, v) {
        return Some((Some(Affine { term: None, constant: c as i64 }), b1));
    }
    let whole = Affine { term: Some(v), constant: 0 };
    let (base, c) = match extract(func, v) {
        Some(p) => p,
        None => return Some((Some(whole), b1)),
    };
    let (a, b2) = analyze_affine_index(func, ranges, base, fuel - 1, b1)?;
    match a {
        Some(x) => {
            if affine_is_i32_nowrap(x.term, x.constant + c, ranges) {
                Some((Some(Affine { term: x.term, constant: x.constant + c }), b2))
            } else {
                Some((Some(whole), b2))
            }
        },
        None => Some((Some(whole), b2)),
    }
}

// ---------------------------------------------------------------------------
// Addresses
// ---------------------------------------------------------------------------

/// An address: a root, multiples of values in the order of the values, and a
/// constant.
pub struct Address {
    pub root: ValueId,
    pub terms: Vec<(ValueId, i64)>,
    pub offset: i64,
}

pub struct AddressView {
    pub root: ValueId,
    pub terms: Seq<(ValueId, i64)>,
    pub offset: i64,
}

impl View for Address {
    type V = AddressView;

    open spec fn view(&self) -> AddressView {
        AddressView { root: self.root, terms: self.terms@, offset: self.offset }
    }
}

pub open spec fn fits(x: int) -> bool {
    i64::MIN <= x <= i64::MAX
}

/// The terms with a multiple of a value added, from place `k` on; nothing where
/// the multiple leaves the range of the numbers.
pub open spec fn term_added(terms: Seq<(ValueId, i64)>, v: ValueId, c: i64, k: int) -> Option<
    Seq<(ValueId, i64)>,
>
    decreases terms.len() - k,
{
    if k < 0 || k >= terms.len() {
        Some(terms.push((v, c)))
    } else if terms[k].0 == v {
        if fits(terms[k].1 + c) {
            Some(terms.update(k, (v, (terms[k].1 + c) as i64)))
        } else {
            None
        }
    } else if terms[k].0.0 > v.0 {
        Some(terms.insert(k, (v, c)))
    } else {
        term_added(terms, v, c, k + 1)
    }
}

/// The terms and the offset with one index added.
pub open spec fn index_added(
    terms: Seq<(ValueId, i64)>,
    offset: i64,
    a: Affine,
    stride: i64,
) -> Option<(Seq<(ValueId, i64)>, i64)> {
    match (match a.term {
        Some(t) => term_added(terms, t, stride, 0),
        None => Some(terms),
    }) {
        Some(list) => if fits(a.constant * stride) && fits(offset + a.constant * stride) {
            Some((list, (offset + a.constant * stride) as i64))
        } else {
            None
        },
        None => None,
    }
}

/// The terms and the offset with the indices from place `k` on added.
pub open spec fn indices_added(
    f: FuncView,
    ranges: Seq<Option<(i64, i64)>>,
    indices: Seq<ValueId>,
    strides: Seq<i64>,
    terms: Seq<(ValueId, i64)>,
    offset: i64,
    b: Budget,
    k: int,
) -> Option<(Option<(Seq<(ValueId, i64)>, i64)>, Budget)>
    decreases indices.len() - k,
{
    if k < 0 || k >= indices.len() {
        Some((Some((terms, offset)), b))
    } else {
        match affine_of(f, ranges, indices[k], MAX_AFFINE_DEPTH as nat + 1, b) {
            None => None,
            Some((None, b1)) => Some((None, b1)),
            Some((Some(a), b1)) => match index_added(terms, offset, a, strides[k]) {
                None => Some((None, b1)),
                Some((list, sum)) => indices_added(
                    f,
                    ranges,
                    indices,
                    strides,
                    list,
                    sum,
                    b1,
                    k + 1,
                ),
            },
        }
    }
}

/// The address that a value is, behind what was collected.
pub open spec fn address_from(
    f: FuncView,
    ranges: Seq<Option<(i64, i64)>>,
    v: ValueId,
    terms: Seq<(ValueId, i64)>,
    offset: i64,
    depth: nat,
    count: nat,
    b: Budget,
) -> Option<(Option<AddressView>, Budget)>
    decreases (if depth <= MAX_GEP_CHAIN_DEPTH {
        MAX_GEP_CHAIN_DEPTH + 1 - depth
    } else {
        0
    }),
{
    match types::worked(b, 1) {
        None => None,
        Some(b1) => match util::def_kind(f, v) {
            Some(KindView::Gep { base, indices }) => if depth + 1 > MAX_GEP_CHAIN_DEPTH || count
                + indices.len() > MAX_GEP_INDICES || indices.len() == 0 {
                Some((None, b1))
            } else {
                match types::strides_of(f, base, v, indices.len(), b1) {
                    None => None,
                    Some((None, b2)) => Some((None, b2)),
                    Some((Some(strides), b2)) => match indices_added(
                        f,
                        ranges,
                        indices,
                        strides,
                        terms,
                        offset,
                        b2,
                        0,
                    ) {
                        None => None,
                        Some((None, b3)) => Some((None, b3)),
                        Some((Some((list, sum)), b3)) => address_from(
                            f,
                            ranges,
                            base,
                            list,
                            sum,
                            depth + 1,
                            count + indices.len(),
                            b3,
                        ),
                    },
                }
            },
            _ => if f.value(v).ty is Ptr {
                Some((Some(AddressView { root: v, terms, offset }), b1))
            } else {
                Some((None, b1))
            },
        },
    }
}

/// The address that a value is.
pub open spec fn address_of(
    f: FuncView,
    ranges: Seq<Option<(i64, i64)>>,
    v: ValueId,
    b: Budget,
) -> Option<(Option<AddressView>, Budget)> {
    address_from(f, ranges, v, Seq::empty(), 0, 0, 0, b)
}

fn add_term(terms: &mut Vec<(ValueId, i64)>, v: ValueId, c: i64) -> (r: bool)
    ensures
        match term_added(old(terms)@, v, c, 0) {
            Some(list) => r && final(terms)@ == list,
            None => !r,
        },
{
    let ghost start = terms@;
    let n = terms.len();
    for k in 0..n
        invariant
            n == terms.len(),
            terms@ == start,
            start == old(terms)@,
            term_added(start, v, c, 0) == term_added(start, v, c, k as int),
    {
        let (t, d) = terms[k];
        if t == v {
            let sum = d as i128 + c as i128;
            if i64::MIN as i128 <= sum && sum <= i64::MAX as i128 {
                terms.set(k, (v, sum as i64));
                return true;
            } else {
                return false;
            }
        }
        if t.0 > v.0 {
            terms.insert(k, (v, c));
            return true;
        }
    }
    terms.push((v, c));
    true
}

fn add_index(terms: &mut Vec<(ValueId, i64)>, offset: i64, a: Affine, stride: i64) -> (r: Option<
    i64,
>)
    requires
        affine_fits(Some(a), usize::MAX as nat + 1),
        1 <= stride <= i32::MAX,
    ensures
        match index_added(old(terms)@, offset, a, stride) {
            Some((list, sum)) => r == Some(sum) && final(terms)@ == list,
            None => r is None,
        },
{
    if let Some(t) = a.term {
        if !add_term(terms, t, stride) {
            return None;
        }
    }
    let (x, y) = (a.constant as i128, stride as i128);
    assert(-0x8000_0000_0000_0000_0000 <= x * y <= 0x8000_0000_0000_0000_0000) by (nonlinear_arith)
        requires
            -0x1_0000_0000 <= x <= 0x1_0000_0000,
            1 <= y <= 0x7fff_ffff,
    ;
    let product = x * y;
    if product < i64::MIN as i128 || product > i64::MAX as i128 {
        return None;
    }
    let sum = offset as i128 + product;
    if sum < i64::MIN as i128 || sum > i64::MAX as i128 {
        return None;
    }
    Some(sum as i64)
}

/// The result of a step: the search goes on, the question has no answer, or the
/// search gives up.
pub open spec fn step_view(
    r: Option<(Option<i64>, Budget)>,
    terms: Seq<(ValueId, i64)>,
) -> Option<(Option<(Seq<(ValueId, i64)>, i64)>, Budget)> {
    match r {
        Some((Some(sum), b)) => Some((Some((terms, sum)), b)),
        Some((None, b)) => Some((None, b)),
        None => None,
    }
}

fn add_indices(
    func: &Function,
    ranges: &Vec<Option<(i64, i64)>>,
    indices: &Vec<ValueId>,
    strides: &Vec<i64>,
    terms: &mut Vec<(ValueId, i64)>,
    offset: i64,
    b: Budget,
) -> (r: Option<(Option<i64>, Budget)>)
    requires
        func@.wf(),
        edit::reads_wf(indices@, func@.values.len()),
        ranges.len() == func@.values.len(),
        ranges_fit(ranges@),
        strides.len() == indices.len(),
        types::strides_fit(strides@),
    ensures
        step_view(r, final(terms)@) == indices_added(
            func@,
            ranges@,
            indices@,
            strides@,
            old(terms)@,
            offset,
            b,
            0,
        ),
{
    let ghost start = terms@;
    let mut budget = b;
    let mut sum = offset;
    let n = indices.len();
    assert(func.values.len() == func@.values.len());
    for k in 0..n
        invariant
            func@.wf(),
            func.values.len() == func@.values.len(),
            n == indices.len(),
            edit::reads_wf(indices@, func@.values.len()),
            ranges.len() == func@.values.len(),
            ranges_fit(ranges@),
            strides.len() == indices.len(),
            types::strides_fit(strides@),
            start == old(terms)@,
            indices_added(func@, ranges@, indices@, strides@, start, offset, b, 0)
                == indices_added(
                func@,
                ranges@,
                indices@,
                strides@,
                terms@,
                sum,
                budget,
                k as int,
            ),
    {
        assert(indices@[k as int].0 < func@.values.len());
        let (a, rest) = analyze_affine_index(func, ranges, indices[k], MAX_AFFINE_DEPTH + 1, budget)?;
        budget = rest;
        match a {
            Some(x) => {
                assert(1 <= strides@[k as int] <= i32::MAX);
                match add_index(terms, sum, x, strides[k]) {
                    Some(s) => {
                        sum = s;
                    },
                    None => return Some((None, budget)),
                }
            },
            None => return Some((None, budget)),
        }
    }
    Some((Some(sum), budget))
}

pub open spec fn address_view(r: Option<(Option<Address>, Budget)>) -> Option<
    (Option<AddressView>, Budget),
> {
    match r {
        Some((Some(a), b)) => Some((Some(a@), b)),
        Some((None, b)) => Some((None, b)),
        None => None,
    }
}

fn address_chain(
    func: &Function,
    ranges: &Vec<Option<(i64, i64)>>,
    v: ValueId,
    terms: Vec<(ValueId, i64)>,
    offset: i64,
    depth: usize,
    count: usize,
    b: Budget,
) -> (r: Option<(Option<Address>, Budget)>)
    requires
        func@.wf(),
        func@.has_value(v),
        ranges.len() == func@.values.len(),
        ranges_fit(ranges@),
        depth <= MAX_GEP_CHAIN_DEPTH,
        count <= MAX_GEP_INDICES,
    ensures
        address_view(r) == address_from(
            func@,
            ranges@,
            v,
            terms@,
            offset,
            depth as nat,
            count as nat,
            b,
        ),
        r matches Some((Some(a), _)) ==> func@.has_value(a.root),
    decreases MAX_GEP_CHAIN_DEPTH - depth,
{
    let b1 = spend(b, 1)?;
    proof {
        loops::lemma_def_kind_wf(func@, v);
    }
    match defining_inst(func, v) {
        Some(InstKind::Gep { base, indices }) => {
            if depth >= MAX_GEP_CHAIN_DEPTH || indices.len() > MAX_GEP_INDICES - count
                || indices.len() == 0 {
                return Some((None, b1));
            }
            let (strides, b2) = typed_gep_byte_strides(func, *base, v, indices.len(), b1)?;
            let strides = match strides {
                Some(s) => s,
                None => return Some((None, b2)),
            };
            let mut list = terms;
            let (sum, b3) = add_indices(func, ranges, indices, &strides, &mut list, offset, b2)?;
            match sum {
                Some(s) => address_chain(
                    func,
                    ranges,
                    *base,
                    list,
                    s,
                    depth + 1,
                    count + indices.len(),
                    b3,
                ),
                None => Some((None, b3)),
            }
        },
        _ => {
            assert(func.values@[v.0 as int]@ == func@.value(v));
            match func.values[v.0].ty {
                Type::Ptr(_) => Some((Some(Address { root: v, terms, offset }), b1)),
                _ => Some((None, b1)),
            }
        },
    }
}

pub fn analyze_initial_address(
    func: &Function,
    ranges: &Vec<Option<(i64, i64)>>,
    v: ValueId,
    b: Budget,
) -> (r: Option<(Option<Address>, Budget)>)
    requires
        func@.wf(),
        func@.has_value(v),
        ranges.len() == func@.values.len(),
        ranges_fit(ranges@),
    ensures
        address_view(r) == address_of(func@, ranges@, v, b),
        r matches Some((Some(a), _)) ==> func@.has_value(a.root),
{
    let terms: Vec<(ValueId, i64)> = Vec::new();
    assert(terms@ =~= Seq::empty());
    address_chain(func, ranges, v, terms, 0, 0, 0, b)
}

} // verus!
