//! The known bits are right: whatever numbers the values of the function
//! have, they have the bits that the analysis claims.
use vstd::prelude::*;

use crate::cfg;
use crate::ir::{
    BinaryOp, BlockId, CastOp, CompareOp, Const, FuncView, KindView, Type, UnaryOp, ValueId,
    ValueKindView,
};
use crate::pass::simplify_cfg::known_bits;
use crate::pass::simplify_cfg::known_bits::{KnownBitFact, KnownBits};
use crate::query;

verus! {

/// The number `x` has the known bits.
pub open spec fn fits(bits: KnownBits, x: u32) -> bool {
    bits.zero & x == 0 && bits.one & !x == 0
}

/// The result of an integer operation; booleans are 0 and 1.
pub open spec fn computed(op: BinaryOp, a: u32, b: u32) -> Option<u32> {
    match op {
        BinaryOp::Iand => Some(a & b),
        BinaryOp::Ior => Some(a | b),
        BinaryOp::Ixor => Some(a ^ b),
        BinaryOp::And => Some(a & b),
        BinaryOp::Or => Some(a | b),
        BinaryOp::Iadd => Some(a.wrapping_add(b)),
        BinaryOp::Isub => Some(a.wrapping_sub(b)),
        BinaryOp::Imul => Some(a.wrapping_mul(b)),
        BinaryOp::Ishl => Some(a << (b & 31)),
        BinaryOp::Iashr => Some(((a as i32) >> (b & 31)) as u32),
        _ => None,
    }
}

pub open spec fn compared(op: CompareOp, a: u32, b: u32) -> bool {
    match op {
        CompareOp::Eq => a == b,
        CompareOp::Ne => a != b,
        CompareOp::Lt => (a as i32) < (b as i32),
        CompareOp::Le => (a as i32) <= (b as i32),
        CompareOp::Gt => (a as i32) > (b as i32),
        CompareOp::Ge => (a as i32) >= (b as i32),
    }
}

pub open spec fn bit(b: bool) -> u32 {
    if b {
        1
    } else {
        0
    }
}

/// The number that `env` gives to a constant is the constant.
pub open spec fn constant_obeyed(f: FuncView, env: spec_fn(ValueId) -> u32, v: ValueId) -> bool {
    match f.value(v).kind {
        ValueKindView::Const(Const::Int(i)) => env(v) == i as u32,
        ValueKindView::Const(Const::Bool(b)) => env(v) == bit(b),
        ValueKindView::Const(Const::Float(bits)) => (env(v) != 0) == (bits != 0 && bits
            != 0x8000_0000u32),
        ValueKindView::Const(Const::Zero(Type::I32)) => env(v) == 0,
        ValueKindView::Const(Const::Zero(Type::I1)) => env(v) == 0,
        _ => true,
    }
}

/// The number that `env` gives to the result of an operation is what the
/// operation computes from the numbers of its operands.
pub open spec fn definition_obeyed(f: FuncView, env: spec_fn(ValueId) -> u32, v: ValueId) -> bool {
    match query::definition(f, v) {
        Some(KindView::Unary { op: UnaryOp::Ineg, value }) => env(v) == 0u32.wrapping_sub(
            env(value),
        ),
        Some(KindView::Unary { op: UnaryOp::Not, value }) => env(v) == bit(env(value) == 0),
        Some(KindView::Binary { op, lhs, rhs }) => {
            &&& (computed(op, env(lhs), env(rhs)) matches Some(x) ==> env(v) == x)
            &&& (op == BinaryOp::And || op == BinaryOp::Or ==> env(lhs) <= 1 && env(rhs) <= 1)
        },
        Some(KindView::ICompare { op, lhs, rhs }) => env(v) == bit(
            compared(op, env(lhs), env(rhs)),
        ),
        Some(KindView::Cast { op: CastOp::I32ToBool, value }) => env(v) == bit(env(value) != 0),
        Some(KindView::Cast { op: CastOp::BoolToI32, value }) => env(v) == bit(env(value) != 0),
        _ => true,
    }
}

/// `env` gives numbers to the values of `f` that its constants and operations
/// allow.
pub open spec fn obeyed(f: FuncView, env: spec_fn(ValueId) -> u32) -> bool {
    forall|v: ValueId| #[trigger]
        constant_obeyed(f, env, v) && definition_obeyed(f, env, v)
}

/// The facts that hold at block `at` are true of the numbers.
pub open spec fn facts_true(
    base: FuncView,
    at: BlockId,
    facts: Seq<KnownBitFact>,
    env: spec_fn(ValueId) -> u32,
) -> bool {
    forall|k: int|
        0 <= k < facts.len() && cfg::dominates(base, (#[trigger] facts[k]).region, at) ==> fits(
            facts[k].bits,
            env(facts[k].value),
        )
}

proof fn lemma_exact(bits: KnownBits, x: u32)
    requires
        fits(bits, x),
    ensures
        known_bits::exact_value(bits) matches Some(y) ==> x == y,
{
    let (zero, one) = (bits.zero, bits.one);
    if known_bits::exact_value(bits) is Some {
        assert(x == one) by (bit_vector)
            requires
                zero & x == 0,
                one & !x == 0,
                zero | one == 0xffff_ffff,
        ;
    }
}

proof fn lemma_exactly(x: u32)
    ensures
        fits(known_bits::exactly(x), x),
{
    assert(!x & x == 0 && x & !x == 0) by (bit_vector);
}

proof fn lemma_nothing(x: u32)
    ensures
        fits(known_bits::nothing_known(), x),
{
    assert(0u32 & x == 0 && 0u32 & !x == 0) by (bit_vector);
}

proof fn lemma_lowest_sum(a: KnownBits, b: KnownBits, x: u32, y: u32, z: u32)
    requires
        fits(a, x),
        fits(b, y),
        z == x + y || z + 0x1_0000_0000 == x + y || z == x - y || z == x - y + 0x1_0000_0000,
    ensures
        fits(known_bits::lowest_xor(a, b), z),
{
    let (az, ao, bz, bo) = (a.zero, a.one, b.zero, b.one);
    assert(z & 1 == (x ^ y) & 1) by (bit_vector)
        requires
            z == x + y || z + 0x1_0000_0000 == x + y || z == x - y || z == x - y + 0x1_0000_0000,
    ;
    assert((((az & bz) | (ao & bo)) & 1) & z == 0 && (((az & bo) | (ao & bz)) & 1) & !z == 0)
        by (bit_vector)
        requires
            z & 1 == (x ^ y) & 1,
            az & x == 0,
            ao & !x == 0,
            bz & y == 0,
            bo & !y == 0,
    ;
}

proof fn lemma_lowest_product(a: KnownBits, b: KnownBits, x: u32, y: u32, z: u32)
    requires
        fits(a, x),
        fits(b, y),
        z == (x as int * y as int) % 0x1_0000_0000,
    ensures
        fits(known_bits::product_bits(a, b), z),
{
    let (az, ao, bz, bo) = (a.zero, a.one, b.zero, b.one);
    let p = (x as u64 * y as u64) as u64;
    assert(x as int * y as int <= 0xffff_ffff * 0xffff_ffff) by (nonlinear_arith)
        requires
            0 <= x <= 0xffff_ffff,
            0 <= y <= 0xffff_ffff,
    ;
    assert(0 <= x as int * y as int) by (nonlinear_arith)
        requires
            0 <= x,
            0 <= y,
    ;
    assert(p == x as int * y as int);
    assert(z as u64 == p % 0x1_0000_0000);
    let (x64, y64) = (x as u64, y as u64);
    assert(p & 1 == x64 & y64 & 1) by (bit_vector)
        requires
            p == x64 * y64,
    ;
    let z64 = z as u64;
    assert(z64 & 1 == p & 1) by (bit_vector)
        requires
            z64 == p % 0x1_0000_0000,
    ;
    assert(z & 1 == x & y & 1) by (bit_vector)
        requires
            (z as u64) & 1 == (x as u64) & (y as u64) & 1,
    ;
    assert(((az | bz) & 1) & z == 0 && ((ao & bo) & 1) & !z == 0) by (bit_vector)
        requires
            z & 1 == x & y & 1,
            az & x == 0,
            ao & !x == 0,
            bz & y == 0,
            bo & !y == 0,
    ;
}

proof fn lemma_bitwise(a: KnownBits, b: KnownBits, x: u32, y: u32)
    requires
        fits(a, x),
        fits(b, y),
    ensures
        fits(known_bits::binary_bits(BinaryOp::Iand, None, a, b), x & y),
        fits(known_bits::binary_bits(BinaryOp::Ior, None, a, b), x | y),
        fits(known_bits::binary_bits(BinaryOp::Ixor, None, a, b), x ^ y),
        fits(known_bits::binary_bits(BinaryOp::And, None, a, b), x & y),
        fits(known_bits::binary_bits(BinaryOp::Or, None, a, b), x | y),
{
    let (az, ao, bz, bo) = (a.zero, a.one, b.zero, b.one);
    assert({
        &&& (az | bz) & (x & y) == 0 && (ao & bo) & !(x & y) == 0
        &&& (az & bz) & (x | y) == 0 && (ao | bo) & !(x | y) == 0
        &&& ((az & bz) | (ao & bo)) & (x ^ y) == 0
        &&& ((az & bo) | (ao & bz)) & !(x ^ y) == 0
        &&& ((az | bz) & 1) & (x & y) == 0 && ((ao & bo) & 1) & !(x & y) == 0
        &&& ((az & bz) & 1) & (x | y) == 0 && ((ao | bo) & 1) & !(x | y) == 0
    }) by (bit_vector)
        requires
            az & x == 0,
            ao & !x == 0,
            bz & y == 0,
            bo & !y == 0,
    ;
}

proof fn lemma_shifts(a: KnownBits, x: u32, shift: u32)
    requires
        fits(a, x),
        shift < 32,
    ensures
        fits(known_bits::shifted_left(a, shift), x << shift),
        fits(known_bits::shifted_right(a, shift), ((x as i32) >> shift) as u32),
{
    let (zero, one) = (a.zero, a.one);
    assert(((zero << shift) | !(0xffff_ffffu32 << shift)) & (x << shift) == 0 && (one << shift)
        & !(x << shift) == 0) by (bit_vector)
        requires
            zero & x == 0,
            one & !x == 0,
            shift < 32,
    ;
    let sign = !(0xffff_ffffu32 >> shift);
    let sign_zero = if zero & 0x8000_0000 != 0 {
        sign
    } else {
        0
    };
    let sign_one = if one & 0x8000_0000 != 0 {
        sign
    } else {
        0
    };
    assert(((zero >> shift) | sign_zero) & (((x as i32) >> shift) as u32) == 0) by (bit_vector)
        requires
            zero & x == 0,
            shift < 32,
            sign_zero == (if zero & 0x8000_0000 != 0 {
                !(0xffff_ffffu32 >> shift)
            } else {
                0
            }),
    ;
    assert(((one >> shift) | sign_one) & !(((x as i32) >> shift) as u32) == 0) by (bit_vector)
        requires
            one & !x == 0,
            shift < 32,
            sign_one == (if one & 0x8000_0000 != 0 {
                !(0xffff_ffffu32 >> shift)
            } else {
                0
            }),
    ;
}

/// What is known of the operands determines the known bits of a result.
pub proof fn binary_bits_are_sound(
    op: BinaryOp,
    amount: Option<i32>,
    a: KnownBits,
    b: KnownBits,
    x: u32,
    y: u32,
)
    requires
        fits(a, x),
        fits(b, y),
        amount matches Some(i) ==> y == i as u32,
    ensures
        computed(op, x, y) matches Some(z) ==> fits(
            known_bits::binary_bits(op, amount, a, b),
            z,
        ),
{
    lemma_exact(a, x);
    lemma_exact(b, y);
    match op {
        BinaryOp::Iadd => {
            lemma_exactly(x.wrapping_add(y));
            lemma_lowest_sum(a, b, x, y, x.wrapping_add(y));
        },
        BinaryOp::Isub => {
            lemma_exactly(x.wrapping_sub(y));
            lemma_lowest_sum(a, b, x, y, x.wrapping_sub(y));
        },
        BinaryOp::Imul => {
            lemma_exactly(x.wrapping_mul(y));
            lemma_lowest_product(a, b, x, y, x.wrapping_mul(y));
        },
        BinaryOp::Ishl => {
            lemma_nothing(x << (y & 31));
            assert(y & 31 < 32) by (bit_vector);
            lemma_shifts(a, x, y & 31);
        },
        BinaryOp::Iashr => {
            lemma_nothing(((x as i32) >> (y & 31)) as u32);
            assert(y & 31 < 32) by (bit_vector);
            lemma_shifts(a, x, y & 31);
        },
        _ => {
            lemma_bitwise(a, b, x, y);
        },
    }
}

proof fn lemma_with_facts(
    base: FuncView,
    v: ValueId,
    at: BlockId,
    facts: Seq<KnownBitFact>,
    n: int,
    known: KnownBits,
    env: spec_fn(ValueId) -> u32,
)
    requires
        facts_true(base, at, facts, env),
        fits(known, env(v)),
        0 <= n <= facts.len(),
    ensures
        fits(known_bits::with_facts(base, v, at, facts, n, known), env(v)),
    decreases n,
{
    if n > 0 {
        lemma_with_facts(base, v, at, facts, n - 1, known, env);
        let before = known_bits::with_facts(base, v, at, facts, n - 1, known);
        let fact = facts[n - 1];
        if fact.value == v && cfg::dominates(base, fact.region, at) {
            let (bz, bo, fz, fo, x) = (
                before.zero,
                before.one,
                fact.bits.zero,
                fact.bits.one,
                env(v),
            );
            assert((bz | fz) & x == 0 && (bo | fo) & !x == 0) by (bit_vector)
                requires
                    bz & x == 0,
                    bo & !x == 0,
                    fz & x == 0,
                    fo & !x == 0,
            ;
        }
    }
}

proof fn lemma_consistent(bits: KnownBits, x: u32)
    requires
        fits(bits, x),
    ensures
        fits(known_bits::consistent(bits), x),
{
    let (zero, one) = (bits.zero, bits.one);
    assert((zero & !(zero & one)) & x == 0 && (one & !(zero & one)) & !x == 0) by (bit_vector)
        requires
            zero & x == 0,
            one & !x == 0,
    ;
}

/// Whatever numbers the values have, each has the bits that are known of it.
pub proof fn known_bits_are_sound(
    f: FuncView,
    base: FuncView,
    v: ValueId,
    at: BlockId,
    facts: Seq<KnownBitFact>,
    depth: int,
    work: nat,
    env: spec_fn(ValueId) -> u32,
)
    requires
        obeyed(f, env),
        facts_true(base, at, facts, env),
    ensures
        fits(known_bits::bits_at(f, base, v, at, facts, depth, work).0, env(v)),
    decreases known_bits::MAX_DEPTH + 1 - depth,
{
    lemma_nothing(env(v));
    if depth > known_bits::MAX_DEPTH || work == 0 {
        return ;
    }
    let left = (work - 1) as nat;
    assert(constant_obeyed(f, env, v));
    lemma_exactly(env(v));
    let n = facts.len() as int;
    match f.value(v).kind {
        ValueKindView::Const(Const::Int(i)) => {
            lemma_with_facts(base, v, at, facts, n, known_bits::exactly(env(v)), env);
            lemma_consistent(
                known_bits::with_facts(base, v, at, facts, n, known_bits::exactly(env(v))),
                env(v),
            );
        },
        ValueKindView::Const(Const::Bool(b)) => {
            lemma_with_facts(base, v, at, facts, n, known_bits::exactly(env(v)), env);
            lemma_consistent(
                known_bits::with_facts(base, v, at, facts, n, known_bits::exactly(env(v))),
                env(v),
            );
        },
        ValueKindView::Const(Const::Zero(Type::I32)) => {
            lemma_with_facts(base, v, at, facts, n, known_bits::exactly(env(v)), env);
            lemma_consistent(
                known_bits::with_facts(base, v, at, facts, n, known_bits::exactly(env(v))),
                env(v),
            );
        },
        ValueKindView::Const(Const::Zero(Type::I1)) => {
            lemma_with_facts(base, v, at, facts, n, known_bits::exactly(env(v)), env);
            lemma_consistent(
                known_bits::with_facts(base, v, at, facts, n, known_bits::exactly(env(v))),
                env(v),
            );
        },
        _ => {
            let known = match query::definition(f, v) {
                Some(KindView::Unary { op: UnaryOp::Ineg, value }) => {
                    known_bits_are_sound(f, base, value, at, facts, depth + 1, left, env);
                    let (a, _) = known_bits::bits_at(f, base, value, at, facts, depth + 1, left);
                    let (zero, one, x, z) = (a.zero, a.one, env(value), env(v));
                    assert((zero & 1) & z == 0 && (one & 1) & !z == 0) by (bit_vector)
                        requires
                            z == 0 - x || z == 0 - x + 0x1_0000_0000,
                            zero & x == 0,
                            one & !x == 0,
                    ;
                    known_bits::lowest(a)
                },
                Some(KindView::Binary { op, lhs, rhs }) => {
                    known_bits_are_sound(f, base, lhs, at, facts, depth + 1, left, env);
                    let (a, mid) = known_bits::bits_at(f, base, lhs, at, facts, depth + 1, left);
                    known_bits_are_sound(f, base, rhs, at, facts, depth + 1, mid, env);
                    let (b, _) = known_bits::bits_at(f, base, rhs, at, facts, depth + 1, mid);
                    assert(constant_obeyed(f, env, rhs));
                    let amount = query::int_of(f, rhs);
                    assert(0i32 as u32 == 0u32 && 1i32 as u32 == 1u32) by (bit_vector);
                    binary_bits_are_sound(op, amount, a, b, env(lhs), env(rhs));
                    known_bits::binary_bits(op, amount, a, b)
                },
                _ => known_bits::nothing_known(),
            };
            assert(fits(known, env(v)));
            lemma_with_facts(base, v, at, facts, n, known, env);
            lemma_consistent(known_bits::with_facts(base, v, at, facts, n, known), env(v));
        },
    }
}

proof fn lemma_comparison(op: CompareOp, a: KnownBits, b: KnownBits, x: u32, y: u32)
    requires
        fits(a, x),
        fits(b, y),
    ensures
        known_bits::decided_comparison(op, a, b) matches Some(r) ==> r == compared(op, x, y),
{
    lemma_exact(a, x);
    lemma_exact(b, y);
    let (az, ao, bz, bo) = (a.zero, a.one, b.zero, b.one);
    assert(((ao & bz) | (az & bo)) != 0 ==> x != y) by (bit_vector)
        requires
            az & x == 0,
            ao & !x == 0,
            bz & y == 0,
            bo & !y == 0,
    ;
}

/// A boolean that is known is the boolean that the value has, whatever numbers
/// the values have.
pub proof fn known_booleans_are_sound(
    f: FuncView,
    base: FuncView,
    v: ValueId,
    at: BlockId,
    facts: Seq<KnownBitFact>,
    depth: int,
    work: nat,
    env: spec_fn(ValueId) -> u32,
)
    requires
        obeyed(f, env),
        facts_true(base, at, facts, env),
    ensures
        known_bits::bool_at(f, base, v, at, facts, depth, work).0 matches Some(b) ==> b == (env(v)
            != 0),
    decreases known_bits::MAX_DEPTH + 1 - depth,
{
    if depth > known_bits::MAX_DEPTH || work == 0 {
        return ;
    }
    let left = (work - 1) as nat;
    assert(constant_obeyed(f, env, v));
    if query::bool_of(f, v) is Some {
        if let ValueKindView::Const(Const::Int(i)) = f.value(v).kind {
            assert((i as u32 != 0) == (i != 0)) by (bit_vector);
        }
        return ;
    }
    match query::definition(f, v) {
        Some(KindView::Unary { op: UnaryOp::Not, value }) => {
            known_booleans_are_sound(f, base, value, at, facts, depth + 1, left, env);
        },
        Some(KindView::Binary { op, lhs, rhs }) => {
            if op == BinaryOp::And || op == BinaryOp::Or {
                known_booleans_are_sound(f, base, lhs, at, facts, depth + 1, left, env);
                let mid = known_bits::bool_at(f, base, lhs, at, facts, depth + 1, left).1;
                known_booleans_are_sound(f, base, rhs, at, facts, depth + 1, mid, env);
                let (x, y) = (env(lhs), env(rhs));
                assert((x & y != 0 <==> x != 0 && y != 0) && (x | y != 0 <==> x != 0 || y != 0))
                    by (bit_vector)
                    requires
                        x <= 1,
                        y <= 1,
                ;
            }
        },
        Some(KindView::ICompare { op, lhs, rhs }) => {
            known_bits_are_sound(f, base, lhs, at, facts, depth + 1, left, env);
            let (a, mid) = known_bits::bits_at(f, base, lhs, at, facts, depth + 1, left);
            known_bits_are_sound(f, base, rhs, at, facts, depth + 1, mid, env);
            let (b, _) = known_bits::bits_at(f, base, rhs, at, facts, depth + 1, mid);
            lemma_comparison(op, a, b, env(lhs), env(rhs));
        },
        Some(KindView::Cast { op: CastOp::I32ToBool, value }) => {
            known_bits_are_sound(f, base, value, at, facts, depth + 1, left, env);
            let (a, _) = known_bits::bits_at(f, base, value, at, facts, depth + 1, left);
            let (zero, one, x) = (a.zero, a.one, env(value));
            assert((one != 0 ==> x != 0) && (zero == 0xffff_ffff ==> x == 0)) by (bit_vector)
                requires
                    zero & x == 0,
                    one & !x == 0,
            ;
        },
        _ => {},
    }
}

} // verus!
