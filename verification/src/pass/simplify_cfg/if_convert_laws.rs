//! If-conversion computes what the branch selected.
use vstd::prelude::*;

use crate::ir::{
    BinaryOp, BlockId, CastOp, FuncView, KindView, Type, UnaryOp, ValueId, ValueKindView,
};
use crate::pass::simplify_cfg::boolean_stores;
use crate::pass::simplify_cfg::boolean_stores::StoreValue;
use crate::pass::simplify_cfg::if_convert;
use crate::pass::simplify_cfg::if_convert::{ConditionalUpdate, ShortCircuit};
use crate::pass::simplify_cfg::known_bits_laws;
use crate::query;

verus! {

/// There is room for a few more values and instructions.
pub open spec fn has_room(f: FuncView, b: BlockId) -> bool {
    f.has_block(b) && f.values.len() + 4 <= usize::MAX && f.block(b).insts.len() + 4 <= usize::MAX
}

/// An appended operation defines the value that it was given.
proof fn lemma_appended(f: FuncView, b: BlockId, kind: KindView, ty: Type)
    requires
        f.has_block(b),
        f.values.len() < usize::MAX,
        f.block(b).insts.len() < usize::MAX,
    ensures
        query::definition(f.append(b, kind, ty), f.next_value()) == Some(kind),
{
    let g = f.append(b, kind, ty);
    assert(g.value(f.next_value()).kind == ValueKindView::Inst(b, f.block(b).insts.len() as usize));
    assert(g.block(b).insts.last().result == Some(f.next_value()));
}

/// Appending an operation leaves the other definitions alone.
proof fn lemma_definition_kept(f: FuncView, b: BlockId, kind: KindView, ty: Type, v: ValueId)
    requires
        f.has_block(b),
        f.has_value(v),
        query::definition(f, v) is Some,
    ensures
        query::definition(f.append(b, kind, ty), v) == query::definition(f, v),
{
    let g = f.append(b, kind, ty);
    assert(g.value(v) == f.value(v));
    if let ValueKindView::Inst(owner, at) = f.value(v).kind {
        assert(g.inst(owner, at as int) == f.inst(owner, at as int));
    }
}

/// The combined boolean is the constant where the branch goes straight to the
/// phi, and the computed boolean otherwise.
pub proof fn short_circuit_computes_the_phi(
    f: FuncView,
    c: ShortCircuit,
    env: spec_fn(ValueId) -> u32,
)
    requires
        has_room(f, c.direct),
        known_bits_laws::obeyed(if_convert::short_circuit_computed(f, c).0, env),
    ensures
        (env(if_convert::short_circuit_computed(f, c).1) != 0) == (if (env(c.cond) != 0)
            == c.direct_when_true {
            c.constant
        } else {
            env(f.next_value()) != 0
        }),
{
    let rhs = f.next_value();
    let kind = f.inst(c.rhs_block, c.rhs_at as int).kind;
    let f1 = f.append(c.direct, kind, Type::I1);
    let (f2, lhs) = if_convert::with_condition(f1, c);
    let (op, negate) = if_convert::short_circuit_op(c.direct_when_true, c.constant);
    let last = KindView::Binary { op, lhs, rhs };
    let (g, combined) = if_convert::short_circuit_computed(f, c);
    if negate {
        let not = KindView::Unary { op: UnaryOp::Not, value: c.cond };
        lemma_appended(f1, c.direct, not, Type::I1);
        lemma_definition_kept(f2, c.direct, last, Type::I1, lhs);
        assert(known_bits_laws::constant_obeyed(g, env, lhs));
    }
    lemma_appended(f2, c.direct, last, Type::I1);
    assert(known_bits_laws::constant_obeyed(g, env, combined));
    let (x, y) = (env(lhs), env(rhs));
    assert((x & y != 0 <==> x != 0 && y != 0) && (x | y != 0 <==> x != 0 || y != 0))
        by (bit_vector)
        requires
            x <= 1,
            y <= 1,
    ;
}

/// The number that an update has: `base op delta` where the branch updates,
/// and `base` otherwise.
pub proof fn conditional_update_computes_the_phi(
    f: FuncView,
    c: ConditionalUpdate,
    env: spec_fn(ValueId) -> u32,
)
    requires
        has_room(f, c.block),
        c.op == BinaryOp::Iadd || c.op == BinaryOp::Isub,
        known_bits_laws::obeyed(if_convert::update_computed(f, c).0, env),
    ensures
        env(if_convert::update_computed(f, c).1) == (if (env(c.cond) != 0) == c.update_when_true {
            known_bits_laws::computed(c.op, env(c.base), env(c.delta))->0
        } else {
            env(c.base)
        }),
{
    let (f1, selector) = if_convert::with_selector(f, c);
    let as_i32 = f1.next_value();
    let cast = KindView::Cast { op: CastOp::BoolToI32, value: selector };
    let f2 = f1.append(c.block, cast, Type::I32);
    let scaled = f2.next_value();
    let scale = KindView::Binary { op: BinaryOp::Imul, lhs: c.delta, rhs: as_i32 };
    let f3 = f2.append(c.block, scale, Type::I32);
    let last = KindView::Binary { op: c.op, lhs: c.base, rhs: scaled };
    let (g, selected) = if_convert::update_computed(f, c);
    if !c.update_when_true {
        let not = KindView::Unary { op: UnaryOp::Not, value: c.cond };
        lemma_appended(f, c.block, not, Type::I1);
        lemma_definition_kept(f1, c.block, cast, Type::I32, selector);
        lemma_definition_kept(f2, c.block, scale, Type::I32, selector);
        lemma_definition_kept(f3, c.block, last, Type::I32, selector);
        assert(known_bits_laws::constant_obeyed(g, env, selector));
    }
    lemma_appended(f1, c.block, cast, Type::I32);
    lemma_definition_kept(f2, c.block, scale, Type::I32, as_i32);
    lemma_definition_kept(f3, c.block, last, Type::I32, as_i32);
    lemma_appended(f2, c.block, scale, Type::I32);
    lemma_definition_kept(f3, c.block, last, Type::I32, scaled);
    lemma_appended(f3, c.block, last, Type::I32);
    assert(known_bits_laws::constant_obeyed(g, env, as_i32));
    assert(known_bits_laws::constant_obeyed(g, env, scaled));
    assert(known_bits_laws::constant_obeyed(g, env, selected));
    let d = env(c.delta);
    assert(d.wrapping_mul(1) == d);
    assert(d.wrapping_mul(0) == 0);
}

/// The boolean that a stored value stands for.
pub open spec fn truth(env: spec_fn(ValueId) -> u32, v: StoreValue) -> bool {
    match v {
        StoreValue::Constant(b) => b,
        StoreValue::Dynamic(v) => env(v) != 0,
    }
}

/// The selected boolean is that of the arm that the condition takes.
pub proof fn store_selection_follows_the_condition(
    f: FuncView,
    block: BlockId,
    cond: ValueId,
    t: StoreValue,
    e: StoreValue,
    env: spec_fn(ValueId) -> u32,
)
    requires
        has_room(f, block),
        boolean_stores::selected(f, block, cond, t, e) is Some,
        known_bits_laws::obeyed((boolean_stores::selected(f, block, cond, t, e)->0).0, env),
    ensures
        truth(env, (boolean_stores::selected(f, block, cond, t, e)->0).1) == (if env(cond) != 0 {
            truth(env, t)
        } else {
            truth(env, e)
        }),
{
    let (g, v) = boolean_stores::selected(f, block, cond, t, e)->0;
    let not = KindView::Unary { op: UnaryOp::Not, value: cond };
    let f1 = boolean_stores::negated(f, block, cond);
    let next = f.next_value();
    lemma_appended(f, block, not, Type::I1);
    assert forall|x: u32, y: u32| x <= 1 && y <= 1 implies (#[trigger] (x & y) != 0 <==> x != 0 && y
        != 0) by {
        assert((x & y != 0 <==> x != 0 && y != 0)) by (bit_vector)
            requires
                x <= 1,
                y <= 1,
        ;
    }
    assert forall|x: u32, y: u32| (#[trigger] (x | y) != 0 <==> x != 0 || y != 0) by {
        assert((x | y != 0 <==> x != 0 || y != 0)) by (bit_vector);
    }
    match (t, e) {
        (StoreValue::Constant(a), StoreValue::Constant(b)) => {
            if !a && b {
                assert(known_bits_laws::constant_obeyed(g, env, next));
            }
        },
        (StoreValue::Constant(a), StoreValue::Dynamic(b)) => {
            if a {
                let kind = KindView::Binary { op: BinaryOp::Or, lhs: cond, rhs: b };
                lemma_appended(f, block, kind, Type::I1);
                assert(known_bits_laws::constant_obeyed(g, env, next));
            } else {
                let kind = KindView::Binary { op: BinaryOp::And, lhs: next, rhs: b };
                lemma_appended(f1, block, kind, Type::I1);
                lemma_definition_kept(f1, block, kind, Type::I1, next);
                assert(known_bits_laws::constant_obeyed(g, env, next));
                assert(known_bits_laws::constant_obeyed(g, env, f1.next_value()));
            }
        },
        (StoreValue::Dynamic(a), StoreValue::Constant(b)) => {
            if b {
                let kind = KindView::Binary { op: BinaryOp::Or, lhs: next, rhs: a };
                lemma_appended(f1, block, kind, Type::I1);
                lemma_definition_kept(f1, block, kind, Type::I1, next);
                assert(known_bits_laws::constant_obeyed(g, env, next));
                assert(known_bits_laws::constant_obeyed(g, env, f1.next_value()));
            } else {
                let kind = KindView::Binary { op: BinaryOp::And, lhs: cond, rhs: a };
                lemma_appended(f, block, kind, Type::I1);
                assert(known_bits_laws::constant_obeyed(g, env, next));
            }
        },
        _ => {},
    }
}

} // verus!
