//! Bits of integers that are known at a place of the function.
use vstd::prelude::*;

use crate::cfg;
use crate::cfg::{ControlFlowGraph, Dominators};
use crate::ir::{
    BinaryOp, BlockId, CastOp, CompareOp, Const, FuncView, Function, InstKind, KindView,
    Terminator, Type, UnaryOp, ValueId, ValueKind, ValueKindView,
};
use crate::query;
use crate::query::{
    const_bool, const_i32_value, defining_inst_kind, dominates_in, only_pred, terminator_of,
};

verus! {

/// The bits of a value that are known to be zero and those known to be one.
#[derive(Clone, Copy, PartialEq, Eq, Structural)]
pub struct KnownBits {
    pub zero: u32,
    pub one: u32,
}

/// Bits of `value` that are known wherever `region` has been passed.
#[derive(Clone, Copy, PartialEq, Eq, Structural)]
pub struct KnownBitFact {
    pub region: BlockId,
    pub value: ValueId,
    pub bits: KnownBits,
}

pub const MAX_FACTS: usize = 4096;

pub const MAX_DEPTH: usize = 32;

// ---------------------------------------------------------------------------
// Mathematical model
// ---------------------------------------------------------------------------

pub open spec fn nothing_known() -> KnownBits {
    KnownBits { zero: 0, one: 0 }
}

/// All bits of a constant are known.
pub open spec fn exactly(value: u32) -> KnownBits {
    KnownBits { zero: !value, one: value }
}

/// Only the lowest bit is carried over.
pub open spec fn lowest(bits: KnownBits) -> KnownBits {
    KnownBits { zero: bits.zero & 1, one: bits.one & 1 }
}

/// The value, if all its bits are known.
pub open spec fn exact_value(bits: KnownBits) -> Option<u32> {
    if bits.zero | bits.one == 0xffff_ffff && bits.zero & bits.one == 0 {
        Some(bits.one)
    } else {
        None
    }
}

/// What is known of the lowest bit of a sum or difference.
pub open spec fn lowest_xor(a: KnownBits, b: KnownBits) -> KnownBits {
    KnownBits {
        zero: ((a.zero & b.zero) | (a.one & b.one)) & 1,
        one: ((a.zero & b.one) | (a.one & b.zero)) & 1,
    }
}

/// What is known of a value shifted to the left.
pub open spec fn shifted_left(a: KnownBits, shift: u32) -> KnownBits {
    KnownBits {
        zero: (a.zero << shift) | !(0xffff_ffffu32 << shift),
        one: a.one << shift,
    }
}

/// The bits that an arithmetic shift to the right fills with the sign.
pub open spec fn sign_bits(shift: u32) -> u32 {
    !(0xffff_ffffu32 >> shift)
}

/// What is known of a value shifted to the right.
pub open spec fn shifted_right(a: KnownBits, shift: u32) -> KnownBits {
    KnownBits {
        zero: (a.zero >> shift) | (if a.zero & 0x8000_0000 != 0 {
            sign_bits(shift)
        } else {
            0
        }),
        one: (a.one >> shift) | (if a.one & 0x8000_0000 != 0 {
            sign_bits(shift)
        } else {
            0
        }),
    }
}

/// What is known of a product.
pub open spec fn product_bits(a: KnownBits, b: KnownBits) -> KnownBits {
    KnownBits { zero: (a.zero | b.zero) & 1, one: (a.one & b.one) & 1 }
}

/// The shift that a constant amounts to.
pub open spec fn shift_of(amount: Option<i32>) -> Option<u32> {
    match amount {
        Some(i) => Some((i as u32) & 31),
        None => None,
    }
}

/// What is known of the result of an operation; `amount` is the right operand
/// if it is a constant.
pub open spec fn binary_bits(op: BinaryOp, amount: Option<i32>, a: KnownBits, b: KnownBits) -> KnownBits {
    match op {
        BinaryOp::Iand => KnownBits { zero: a.zero | b.zero, one: a.one & b.one },
        BinaryOp::Ior => KnownBits { zero: a.zero & b.zero, one: a.one | b.one },
        BinaryOp::Ixor => KnownBits {
            zero: (a.zero & b.zero) | (a.one & b.one),
            one: (a.zero & b.one) | (a.one & b.zero),
        },
        BinaryOp::Iadd => match (exact_value(a), exact_value(b)) {
            (Some(x), Some(y)) => exactly(x.wrapping_add(y)),
            _ => lowest_xor(a, b),
        },
        BinaryOp::Isub => match (exact_value(a), exact_value(b)) {
            (Some(x), Some(y)) => exactly(x.wrapping_sub(y)),
            _ => lowest_xor(a, b),
        },
        BinaryOp::Imul => match (exact_value(a), exact_value(b)) {
            (Some(x), Some(y)) => exactly(x.wrapping_mul(y)),
            _ => product_bits(a, b),
        },
        BinaryOp::Ishl => match shift_of(amount) {
            Some(shift) => shifted_left(a, shift),
            None => nothing_known(),
        },
        BinaryOp::Iashr => match shift_of(amount) {
            Some(shift) => shifted_right(a, shift),
            None => nothing_known(),
        },
        BinaryOp::And => KnownBits { zero: (a.zero | b.zero) & 1, one: (a.one & b.one) & 1 },
        BinaryOp::Or => KnownBits { zero: (a.zero & b.zero) & 1, one: (a.one | b.one) & 1 },
        _ => nothing_known(),
    }
}

/// The facts about `v` among the first `n` that hold at block `at`, added to
/// what is known; `base` is the function that the facts belong to.
pub open spec fn with_facts(
    base: FuncView,
    v: ValueId,
    at: BlockId,
    facts: Seq<KnownBitFact>,
    n: int,
    known: KnownBits,
) -> KnownBits
    decreases n,
{
    if n <= 0 {
        known
    } else {
        let before = with_facts(base, v, at, facts, n - 1, known);
        let fact = facts[n - 1];
        if fact.value == v && cfg::dominates(base, fact.region, at) {
            KnownBits { zero: before.zero | fact.bits.zero, one: before.one | fact.bits.one }
        } else {
            before
        }
    }
}

/// Bits that are claimed to be both are not known.
pub open spec fn consistent(bits: KnownBits) -> KnownBits {
    KnownBits { zero: bits.zero & !(bits.zero & bits.one), one: bits.one & !(bits.zero & bits.one) }
}

/// What is known of `v` at block `at`, and the work that is left. Nothing is
/// known once the depth or the work is used up.
pub open spec fn bits_at(
    f: FuncView,
    base: FuncView,
    v: ValueId,
    at: BlockId,
    facts: Seq<KnownBitFact>,
    depth: int,
    work: nat,
) -> (KnownBits, nat)
    decreases MAX_DEPTH + 1 - depth,
{
    if depth > MAX_DEPTH || work == 0 {
        (nothing_known(), work)
    } else {
        let left = (work - 1) as nat;
        let (known, rest) = match f.value(v).kind {
            ValueKindView::Const(Const::Int(i)) => (exactly(i as u32), left),
            ValueKindView::Const(Const::Bool(b)) => (
                exactly(
                    if b {
                        1
                    } else {
                        0
                    },
                ),
                left,
            ),
            ValueKindView::Const(Const::Zero(Type::I32)) => (exactly(0), left),
            ValueKindView::Const(Const::Zero(Type::I1)) => (exactly(0), left),
            _ => match query::definition(f, v) {
                Some(KindView::Unary { op: UnaryOp::Ineg, value }) => {
                    let (a, rest) = bits_at(f, base, value, at, facts, depth + 1, left);
                    (lowest(a), rest)
                },
                Some(KindView::Binary { op, lhs, rhs }) => {
                    let (a, mid) = bits_at(f, base, lhs, at, facts, depth + 1, left);
                    let (b, rest) = bits_at(f, base, rhs, at, facts, depth + 1, mid);
                    (binary_bits(op, query::int_of(f, rhs), a, b), rest)
                },
                _ => (nothing_known(), left),
            },
        };
        (consistent(with_facts(base, v, at, facts, facts.len() as int, known)), rest)
    }
}

/// The outcome of a comparison, if the known bits decide it.
pub open spec fn decided_comparison(op: CompareOp, a: KnownBits, b: KnownBits) -> Option<bool> {
    let contradiction = (a.one & b.zero) | (a.zero & b.one);
    match (op, exact_value(a), exact_value(b)) {
        (CompareOp::Eq, x, y) => if contradiction != 0 {
            Some(false)
        } else {
            match (x, y) {
                (Some(x), Some(y)) => Some(x == y),
                _ => None,
            }
        },
        (CompareOp::Ne, x, y) => if contradiction != 0 {
            Some(true)
        } else {
            match (x, y) {
                (Some(x), Some(y)) => Some(x != y),
                _ => None,
            }
        },
        (CompareOp::Lt, Some(x), Some(y)) => Some((x as i32) < (y as i32)),
        (CompareOp::Le, Some(x), Some(y)) => Some((x as i32) <= (y as i32)),
        (CompareOp::Gt, Some(x), Some(y)) => Some((x as i32) > (y as i32)),
        (CompareOp::Ge, Some(x), Some(y)) => Some((x as i32) >= (y as i32)),
        _ => None,
    }
}

pub open spec fn both(a: Option<bool>, b: Option<bool>) -> Option<bool> {
    if a == Some(false) || b == Some(false) {
        Some(false)
    } else if a == Some(true) && b == Some(true) {
        Some(true)
    } else {
        None
    }
}

pub open spec fn either(a: Option<bool>, b: Option<bool>) -> Option<bool> {
    if a == Some(true) || b == Some(true) {
        Some(true)
    } else if a == Some(false) && b == Some(false) {
        Some(false)
    } else {
        None
    }
}

pub open spec fn opposite(a: Option<bool>) -> Option<bool> {
    match a {
        Some(b) => Some(!b),
        None => None,
    }
}

/// Whether the known bits decide that a value is zero.
pub open spec fn nonzero(bits: KnownBits) -> Option<bool> {
    if bits.one != 0 {
        Some(true)
    } else if bits.zero == 0xffff_ffff {
        Some(false)
    } else {
        None
    }
}

/// The boolean that `v` is known to be at block `at`, and the work that is
/// left.
pub open spec fn bool_at(
    f: FuncView,
    base: FuncView,
    v: ValueId,
    at: BlockId,
    facts: Seq<KnownBitFact>,
    depth: int,
    work: nat,
) -> (Option<bool>, nat)
    decreases MAX_DEPTH + 1 - depth,
{
    if depth > MAX_DEPTH || work == 0 {
        (None, work)
    } else {
        let left = (work - 1) as nat;
        match query::bool_of(f, v) {
            Some(b) => (Some(b), left),
            None => match query::definition(f, v) {
                Some(KindView::Unary { op: UnaryOp::Not, value }) => {
                    let (a, rest) = bool_at(f, base, value, at, facts, depth + 1, left);
                    (opposite(a), rest)
                },
                Some(KindView::Binary { op: BinaryOp::And, lhs, rhs }) => {
                    let (a, mid) = bool_at(f, base, lhs, at, facts, depth + 1, left);
                    let (b, rest) = bool_at(f, base, rhs, at, facts, depth + 1, mid);
                    (both(a, b), rest)
                },
                Some(KindView::Binary { op: BinaryOp::Or, lhs, rhs }) => {
                    let (a, mid) = bool_at(f, base, lhs, at, facts, depth + 1, left);
                    let (b, rest) = bool_at(f, base, rhs, at, facts, depth + 1, mid);
                    (either(a, b), rest)
                },
                Some(KindView::ICompare { op, lhs, rhs }) => {
                    let (a, mid) = bits_at(f, base, lhs, at, facts, depth + 1, left);
                    let (b, rest) = bits_at(f, base, rhs, at, facts, depth + 1, mid);
                    (decided_comparison(op, a, b), rest)
                },
                Some(KindView::Cast { op: CastOp::I32ToBool, value }) => {
                    let (a, rest) = bits_at(f, base, value, at, facts, depth + 1, left);
                    (nonzero(a), rest)
                },
                _ => (None, left),
            },
        }
    }
}

/// A condition that compares masked bits with zero: the value, the mask and
/// whether the condition holds when the bits are zero.
pub open spec fn masked_condition(f: FuncView, cond: ValueId) -> Option<(ValueId, u32, bool)> {
    match query::definition(f, cond) {
        Some(KindView::ICompare { op, lhs, rhs }) => if op == CompareOp::Eq || op
            == CompareOp::Ne {
            let masked = if query::int_of(f, rhs) == Some(0i32) {
                Some(lhs)
            } else if query::int_of(f, lhs) == Some(0i32) {
                Some(rhs)
            } else {
                None
            };
            match masked {
                Some(m) => match query::definition(f, m) {
                    Some(KindView::Binary { op: BinaryOp::Iand, lhs: a, rhs: b }) => match (
                        query::int_of(f, a),
                        query::int_of(f, b),
                    ) {
                        (_, Some(mask)) => Some((a, mask as u32, op == CompareOp::Eq)),
                        (Some(mask), None) => Some((b, mask as u32, op == CompareOp::Eq)),
                        _ => None,
                    },
                    _ => None,
                },
                None => None,
            }
        } else {
            None
        },
        _ => None,
    }
}

pub open spec fn is_single_bit(mask: u32) -> bool {
    mask != 0 && mask & (mask - 1) as u32 == 0
}

/// The fact that holds in the arm where the masked bits are zero.
pub open spec fn zero_fact(f: FuncView, b: BlockId, region: BlockId, v: ValueId, mask: u32) -> Seq<
    KnownBitFact,
> {
    if region != b && cfg::preds(f, region) == seq![b] {
        seq![KnownBitFact { region, value: v, bits: KnownBits { zero: mask, one: 0 } }]
    } else {
        Seq::empty()
    }
}

/// The fact that holds in the other arm if the mask is a single bit.
pub open spec fn one_fact(f: FuncView, b: BlockId, region: BlockId, v: ValueId, mask: u32) -> Seq<
    KnownBitFact,
> {
    if region != b && is_single_bit(mask) && cfg::preds(f, region) == seq![b] {
        seq![KnownBitFact { region, value: v, bits: KnownBits { zero: 0, one: mask } }]
    } else {
        Seq::empty()
    }
}

/// The facts that the branch of block `b` gives for its arms.
pub open spec fn facts_of(f: FuncView, b: BlockId) -> Seq<KnownBitFact> {
    match f.terminator(b) {
        Some(Terminator::Branch { cond, then_target, else_target }) => match masked_condition(
            f,
            cond,
        ) {
            Some((v, mask, zero_on_true)) => {
                let zero_region = if zero_on_true {
                    then_target
                } else {
                    else_target
                };
                let other_region = if zero_on_true {
                    else_target
                } else {
                    then_target
                };
                zero_fact(f, b, zero_region, v, mask) + one_fact(f, b, other_region, v, mask)
            },
            None => Seq::empty(),
        },
        _ => Seq::empty(),
    }
}

pub open spec fn facts_below(f: FuncView, n: int) -> Seq<KnownBitFact>
    decreases n,
{
    if n <= 0 {
        Seq::empty()
    } else {
        facts_below(f, n - 1) + facts_of(f, BlockId((n - 1) as usize))
    }
}

/// The facts of the function; none if there are too many.
pub open spec fn all_facts(f: FuncView) -> Seq<KnownBitFact> {
    let all = facts_below(f, f.blocks.len() as int);
    if all.len() > MAX_FACTS {
        Seq::empty()
    } else {
        all
    }
}

// ---------------------------------------------------------------------------
// Executable analysis
// ---------------------------------------------------------------------------

pub fn exact_known_bits(value: u32) -> (r: KnownBits)
    ensures
        r == exactly(value),
{
    KnownBits { zero: !value, one: value }
}

fn parity_unary(bits: KnownBits) -> (r: KnownBits)
    ensures
        r == lowest(bits),
{
    KnownBits { zero: bits.zero & 1, one: bits.one & 1 }
}

pub fn exact_known_value(bits: KnownBits) -> (r: Option<u32>)
    ensures
        r == exact_value(bits),
{
    if bits.zero | bits.one == 0xffff_ffff && bits.zero & bits.one == 0 {
        Some(bits.one)
    } else {
        None
    }
}

fn known_low_bit_xor(a: KnownBits, b: KnownBits) -> (r: KnownBits)
    ensures
        r == lowest_xor(a, b),
{
    KnownBits {
        zero: ((a.zero & b.zero) | (a.one & b.one)) & 1,
        one: ((a.zero & b.one) | (a.one & b.zero)) & 1,
    }
}

fn masked_shift(amount: i32) -> (r: u32)
    ensures
        r == (amount as u32) & 31,
        r < 32,
{
    let bits = amount as u32;
    assert(bits & 31 < 32) by (bit_vector);
    bits & 31
}

pub fn known_bits_binary(op: BinaryOp, amount: Option<i32>, a: KnownBits, b: KnownBits) -> (r:
    KnownBits)
    ensures
        r == binary_bits(op, amount, a, b),
{
    match op {
        BinaryOp::Iand => KnownBits { zero: a.zero | b.zero, one: a.one & b.one },
        BinaryOp::Ior => KnownBits { zero: a.zero & b.zero, one: a.one | b.one },
        BinaryOp::Ixor => KnownBits {
            zero: (a.zero & b.zero) | (a.one & b.one),
            one: (a.zero & b.one) | (a.one & b.zero),
        },
        BinaryOp::Iadd => match (exact_known_value(a), exact_known_value(b)) {
            (Some(x), Some(y)) => exact_known_bits(x.wrapping_add(y)),
            _ => known_low_bit_xor(a, b),
        },
        BinaryOp::Isub => match (exact_known_value(a), exact_known_value(b)) {
            (Some(x), Some(y)) => exact_known_bits(x.wrapping_sub(y)),
            _ => known_low_bit_xor(a, b),
        },
        BinaryOp::Imul => match (exact_known_value(a), exact_known_value(b)) {
            (Some(x), Some(y)) => exact_known_bits(x.wrapping_mul(y)),
            _ => KnownBits { zero: (a.zero | b.zero) & 1, one: (a.one & b.one) & 1 },
        },
        BinaryOp::Ishl => match amount {
            Some(i) => {
                let shift = masked_shift(i);
                KnownBits {
                    zero: (a.zero << shift) | !(0xffff_ffffu32 << shift),
                    one: a.one << shift,
                }
            },
            None => KnownBits { zero: 0, one: 0 },
        },
        BinaryOp::Iashr => match amount {
            Some(i) => {
                let shift = masked_shift(i);
                let sign = !(0xffff_ffffu32 >> shift);
                KnownBits {
                    zero: (a.zero >> shift) | (if a.zero & 0x8000_0000 != 0 {
                        sign
                    } else {
                        0
                    }),
                    one: (a.one >> shift) | (if a.one & 0x8000_0000 != 0 {
                        sign
                    } else {
                        0
                    }),
                }
            },
            None => KnownBits { zero: 0, one: 0 },
        },
        BinaryOp::And => KnownBits { zero: (a.zero | b.zero) & 1, one: (a.one & b.one) & 1 },
        BinaryOp::Or => KnownBits { zero: (a.zero & b.zero) & 1, one: (a.one | b.one) & 1 },
        _ => KnownBits { zero: 0, one: 0 },
    }
}

/// The facts name blocks of the function.
pub open spec fn facts_in(facts: Seq<KnownBitFact>, f: FuncView) -> bool {
    forall|k: int| 0 <= k < facts.len() ==> f.has_block((#[trigger] facts[k]).region)
}

fn apply_facts(
    base: &Function,
    dom: &Dominators,
    v: ValueId,
    at: BlockId,
    facts: &Vec<KnownBitFact>,
    known: KnownBits,
) -> (r: KnownBits)
    requires
        dom.of(base@),
        base@.has_block(at),
        facts_in(facts@, base@),
    ensures
        r == consistent(with_facts(base@, v, at, facts@, facts.len() as int, known)),
{
    let mut bits = known;
    let n = facts.len();
    for k in 0..n
        invariant
            n == facts.len(),
            dom.of(base@),
            base@.has_block(at),
            facts_in(facts@, base@),
            bits == with_facts(base@, v, at, facts@, k as int, known),
    {
        let fact = facts[k];
        assert(base@.has_block(facts@[k as int].region));
        if fact.value == v && dominates_in(base, dom, fact.region, at) {
            bits = KnownBits { zero: bits.zero | fact.bits.zero, one: bits.one | fact.bits.one };
        }
    }
    let conflict = bits.zero & bits.one;
    KnownBits { zero: bits.zero & !conflict, one: bits.one & !conflict }
}

/// The known bits of `v` at block `at`; see `bits_at`.
pub fn known_bits_at(
    func: &Function,
    base: &Function,
    v: ValueId,
    at: BlockId,
    dom: &Dominators,
    facts: &Vec<KnownBitFact>,
    depth: usize,
    work: &mut usize,
) -> (r: KnownBits)
    requires
        func@.wf(),
        func@.has_value(v),
        dom.of(base@),
        base@.has_block(at),
        facts_in(facts@, base@),
        depth <= MAX_DEPTH + 1,
    ensures
        (r, *final(work) as nat) == bits_at(
            func@,
            base@,
            v,
            at,
            facts@,
            depth as int,
            *old(work) as nat,
        ),
    decreases MAX_DEPTH + 1 - depth,
{
    if depth > MAX_DEPTH || *work == 0 {
        return KnownBits { zero: 0, one: 0 };
    }
    *work = *work - 1;
    proof {
        query::lemma_definition_wf(func@, v);
    }
    let known = match &func.values[v.0].kind {
        ValueKind::Const(Const::Int(i)) => exact_known_bits(*i as u32),
        ValueKind::Const(Const::Bool(b)) => exact_known_bits(
            if *b {
                1
            } else {
                0
            },
        ),
        ValueKind::Const(Const::Zero(Type::I32)) => exact_known_bits(0),
        ValueKind::Const(Const::Zero(Type::I1)) => exact_known_bits(0),
        _ => match defining_inst_kind(func, v) {
            Some(InstKind::Unary { op: UnaryOp::Ineg, value }) => {
                let bits = known_bits_at(func, base, *value, at, dom, facts, depth + 1, work);
                parity_unary(bits)
            },
            Some(InstKind::Binary { op, lhs, rhs }) => {
                let a = known_bits_at(func, base, *lhs, at, dom, facts, depth + 1, work);
                let b = known_bits_at(func, base, *rhs, at, dom, facts, depth + 1, work);
                known_bits_binary(*op, const_i32_value(func, *rhs), a, b)
            },
            _ => KnownBits { zero: 0, one: 0 },
        },
    };
    apply_facts(base, dom, v, at, facts, known)
}

pub fn evaluate_known_compare(op: CompareOp, a: KnownBits, b: KnownBits) -> (r: Option<bool>)
    ensures
        r == decided_comparison(op, a, b),
{
    let contradiction = (a.one & b.zero) | (a.zero & b.one);
    let (x, y) = (exact_known_value(a), exact_known_value(b));
    match op {
        CompareOp::Eq => if contradiction != 0 {
            Some(false)
        } else {
            Some(x? == y?)
        },
        CompareOp::Ne => if contradiction != 0 {
            Some(true)
        } else {
            Some(x? != y?)
        },
        CompareOp::Lt => Some((x? as i32) < (y? as i32)),
        CompareOp::Le => Some((x? as i32) <= (y? as i32)),
        CompareOp::Gt => Some((x? as i32) > (y? as i32)),
        CompareOp::Ge => Some((x? as i32) >= (y? as i32)),
    }
}

/// The boolean that `v` is known to be at block `at`; see `bool_at`.
pub fn known_bool_at(
    func: &Function,
    base: &Function,
    v: ValueId,
    at: BlockId,
    dom: &Dominators,
    facts: &Vec<KnownBitFact>,
    depth: usize,
    work: &mut usize,
) -> (r: Option<bool>)
    requires
        func@.wf(),
        func@.has_value(v),
        dom.of(base@),
        base@.has_block(at),
        facts_in(facts@, base@),
        depth <= MAX_DEPTH + 1,
    ensures
        (r, *final(work) as nat) == bool_at(
            func@,
            base@,
            v,
            at,
            facts@,
            depth as int,
            *old(work) as nat,
        ),
    decreases MAX_DEPTH + 1 - depth,
{
    if depth > MAX_DEPTH || *work == 0 {
        return None;
    }
    *work = *work - 1;
    if let Some(b) = const_bool(func, v) {
        return Some(b);
    }
    proof {
        query::lemma_definition_wf(func@, v);
    }
    match defining_inst_kind(func, v) {
        Some(InstKind::Unary { op: UnaryOp::Not, value }) => {
            let a = known_bool_at(func, base, *value, at, dom, facts, depth + 1, work);
            match a {
                Some(b) => Some(!b),
                None => None,
            }
        },
        Some(InstKind::Binary { op: BinaryOp::And, lhs, rhs }) => {
            let a = known_bool_at(func, base, *lhs, at, dom, facts, depth + 1, work);
            let b = known_bool_at(func, base, *rhs, at, dom, facts, depth + 1, work);
            match (a, b) {
                (Some(false), _) => Some(false),
                (_, Some(false)) => Some(false),
                (Some(true), Some(true)) => Some(true),
                _ => None,
            }
        },
        Some(InstKind::Binary { op: BinaryOp::Or, lhs, rhs }) => {
            let a = known_bool_at(func, base, *lhs, at, dom, facts, depth + 1, work);
            let b = known_bool_at(func, base, *rhs, at, dom, facts, depth + 1, work);
            match (a, b) {
                (Some(true), _) => Some(true),
                (_, Some(true)) => Some(true),
                (Some(false), Some(false)) => Some(false),
                _ => None,
            }
        },
        Some(InstKind::ICompare { op, lhs, rhs }) => {
            let a = known_bits_at(func, base, *lhs, at, dom, facts, depth + 1, work);
            let b = known_bits_at(func, base, *rhs, at, dom, facts, depth + 1, work);
            evaluate_known_compare(*op, a, b)
        },
        Some(InstKind::Cast { op: CastOp::I32ToBool, value }) => {
            let a = known_bits_at(func, base, *value, at, dom, facts, depth + 1, work);
            if a.one != 0 {
                Some(true)
            } else if a.zero == 0xffff_ffff {
                Some(false)
            } else {
                None
            }
        },
        _ => None,
    }
}

pub fn masked_zero_condition(func: &Function, cond: ValueId) -> (r: Option<(ValueId, u32, bool)>)
    requires
        func@.wf(),
    ensures
        r == masked_condition(func@, cond),
{
    proof {
        query::lemma_definition_wf(func@, cond);
    }
    if let Some(InstKind::ICompare { op, lhs, rhs }) = defining_inst_kind(func, cond) {
        if *op != CompareOp::Eq && *op != CompareOp::Ne {
            return None;
        }
        let masked = if const_i32_value(func, *rhs) == Some(0i32) {
            *lhs
        } else if const_i32_value(func, *lhs) == Some(0i32) {
            *rhs
        } else {
            return None;
        };
        proof {
            query::lemma_definition_wf(func@, masked);
        }
        if let Some(InstKind::Binary { op: BinaryOp::Iand, lhs: a, rhs: b }) = defining_inst_kind(
            func,
            masked,
        ) {
            if let Some(mask) = const_i32_value(func, *b) {
                return Some((*a, mask as u32, *op == CompareOp::Eq));
            }
            if let Some(mask) = const_i32_value(func, *a) {
                return Some((*b, mask as u32, *op == CompareOp::Eq));
            }
        }
    }
    None
}

proof fn lemma_facts_grow(f: FuncView, a: int, b: int)
    requires
        a <= b,
    ensures
        facts_below(f, a).len() <= facts_below(f, b).len(),
    decreases b - a,
{
    if a < b {
        if b > 0 {
            lemma_facts_grow(f, a, b - 1);
        }
    }
}

/// Collects what the branches of the function say about masked bits.
#[verifier::loop_isolation(false)]
pub fn collect_known_bit_facts(func: &Function, graph: &ControlFlowGraph) -> (r: Vec<KnownBitFact>)
    requires
        func@.wf(),
        graph.of(func@),
    ensures
        r@ == all_facts(func@),
        facts_in(r@, func@),
{
    let ghost f = func@;
    let mut facts: Vec<KnownBitFact> = Vec::new();
    let n = func.blocks.len();
    for b in 0..n
        invariant
            facts@ == facts_below(f, b as int),
            facts.len() <= MAX_FACTS,
            facts_in(facts@, f),
    {
        let id = BlockId(b);
        let ghost before = facts@;
        proof {
            query::lemma_terminator_wf(f, id);
        }
        if let Some(Terminator::Branch { cond, then_target, else_target }) = terminator_of(
            func,
            id,
        ) {
            if let Some((v, mask, zero_on_true)) = masked_zero_condition(func, cond) {
                let zero_region = if zero_on_true {
                    then_target
                } else {
                    else_target
                };
                let other_region = if zero_on_true {
                    else_target
                } else {
                    then_target
                };
                if zero_region != id && only_pred(func, graph, zero_region, id) {
                    facts.push(
                        KnownBitFact {
                            region: zero_region,
                            value: v,
                            bits: KnownBits { zero: mask, one: 0 },
                        },
                    );
                }
                assert(facts@ =~= before + zero_fact(f, id, zero_region, v, mask));
                let ghost middle = facts@;
                if other_region != id && mask != 0 && mask & (mask - 1) == 0 && only_pred(
                    func,
                    graph,
                    other_region,
                    id,
                ) {
                    facts.push(
                        KnownBitFact {
                            region: other_region,
                            value: v,
                            bits: KnownBits { zero: 0, one: mask },
                        },
                    );
                }
                assert(facts@ =~= middle + one_fact(f, id, other_region, v, mask));
            }
        }
        assert(facts@ =~= before + facts_of(f, id));
        if facts.len() > MAX_FACTS {
            proof {
                lemma_facts_grow(f, b + 1, n as int);
            }
            return Vec::new();
        }
    }
    facts
}

} // verus!
