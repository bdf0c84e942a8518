//! What the wrapper of a memoized function computes.
use vstd::prelude::*;

use crate::emit;
use crate::ir::{
    BinaryOp, BlockId, CompareOp, Const, FuncView, InstView, KindView, Terminator, Type, ValueId,
    ValueKindView,
};
use crate::pass::piecewise_laws;
use crate::pass::piecewise_laws::persists;
use crate::pass::range_integer::laws::{computes_integers, of_compare};
use crate::pass::recursive_memoize;
use crate::pass::recursive_memoize::{Lookup, NamesView, Opening, Parts};
use crate::pass::simplify_cfg::store_laws::after_store;
use crate::semantics;
use crate::semantics::{Meaning, State};
use crate::ssa;
use crate::ssa::one;
use crate::util;

verus! {

// ---------------------------------------------------------------------------
// The wrapper, block by block
// ---------------------------------------------------------------------------

/// The function with eight blocks, of which `n` values exist.
pub open spec fn has_size(f: FuncView, n: int) -> bool {
    f.blocks.len() == 8 && f.values.len() == n
}

/// The instructions of a block.
pub open spec fn at(f: FuncView, b: int) -> Seq<InstView> {
    f.block(BlockId(b as usize)).insts
}

pub open spec fn defines(v: int, kind: KindView) -> InstView {
    InstView { result: Some(ValueId(v as usize)), kind }
}

pub open spec fn does(kind: KindView) -> InstView {
    InstView { result: None, kind }
}

proof fn lemma_emit(h: FuncView, b: usize, kind: KindView, ty: Type, n: int)
    requires
        has_size(h, n),
        n < 100,
        b < 8,
        at(h, b as int).len() < 100,
    ensures
        ({
            let k = emit::emitted(h, b, kind, ty);
            &&& has_size(k, n + 1)
            &&& h.next_value() == ValueId(n as usize)
            &&& persists(h, k)
            &&& k.entry == h.entry
            &&& at(k, b as int) == at(h, b as int).push(defines(n, kind))
            &&& forall|c: int| 0 <= c < 8 && c != b ==> #[trigger] at(k, c) == at(h, c)
            &&& forall|c: BlockId| #[trigger] h.has_block(c) ==> k.terminator(c) == h.terminator(c)
        }),
{
    piecewise_laws::lemma_emitted(h, b, kind, ty);
    let k = emit::emitted(h, b, kind, ty);
    assert forall|c: int| 0 <= c < 8 && c != b implies #[trigger] at(k, c) == at(h, c) by {
        assert(h.has_block(BlockId(c as usize)));
    }
    assert forall|c: BlockId| #[trigger] h.has_block(c) implies k.terminator(c) == h.terminator(
        c,
    ) by {
        if c.0 == b {
            assert(c == BlockId(b));
        }
    }
}

proof fn lemma_effect(h: FuncView, b: usize, kind: KindView, n: int)
    requires
        has_size(h, n),
        b < 8,
    ensures
        ({
            let k = emit::effected(h, b, kind);
            &&& has_size(k, n)
            &&& persists(h, k)
            &&& k.entry == h.entry
            &&& at(k, b as int) == at(h, b as int).push(does(kind))
            &&& forall|c: int| 0 <= c < 8 && c != b ==> #[trigger] at(k, c) == at(h, c)
            &&& forall|c: BlockId| #[trigger] h.has_block(c) ==> k.terminator(c) == h.terminator(c)
        }),
{
    reveal(emit::effected);
    let k = emit::effected(h, b, kind);
    assert(at(k, b as int) =~= at(h, b as int).push(does(kind)));
    assert forall|c: BlockId, i: int| h.has_inst(c, i) implies k.has_inst(c, i) && (
    #[trigger] k.inst(c, i)) == h.inst(c, i) by {
    }
}

proof fn lemma_end(h: FuncView, b: usize, t: Terminator, n: int)
    requires
        has_size(h, n),
        b < 8,
    ensures
        ({
            let k = emit::ended(h, b, t);
            &&& has_size(k, n)
            &&& persists(h, k)
            &&& k.entry == h.entry
            &&& forall|c: int| 0 <= c < 8 ==> #[trigger] at(k, c) == at(h, c)
            &&& k.terminator(BlockId(b)) == Some(t)
            &&& forall|c: BlockId| #[trigger]
                h.has_block(c) && c.0 != b ==> k.terminator(c) == h.terminator(c)
        }),
{
    piecewise_laws::lemma_ended(h, b, t);
    let k = emit::ended(h, b, t);
    assert forall|c: int| 0 <= c < 8 implies #[trigger] at(k, c) == at(h, c) by {
        assert(h.has_block(BlockId(c as usize)));
    }
}

pub open spec fn v(n: int) -> ValueId {
    ValueId(n as usize)
}

pub open spec fn parts() -> Parts {
    Parts {
        first: v(0),
        second: v(1),
        zero: v(2),
        one: v(3),
        first_limit: v(4),
        second_limit: v(5),
        depth_ptr: v(6),
        tags_ptr: v(7),
        values_ptr: v(8),
    }
}

/// What the names of the wrapper's values mean.
pub open spec fn has_parts(f: FuncView, n: NamesView) -> bool {
    &&& f.entry == BlockId(0)
    &&& f.value(v(0)).kind == ValueKindView::Param
    &&& f.value(v(1)).kind == ValueKindView::Param
    &&& f.value(v(2)).kind == ValueKindView::Const(Const::Int(0))
    &&& f.value(v(3)).kind == ValueKindView::Const(Const::Int(1))
    &&& f.value(v(4)).kind == ValueKindView::Const(
        Const::Int(recursive_memoize::FIRST_PARAM_LIMIT),
    )
    &&& f.value(v(5)).kind == ValueKindView::Const(
        Const::Int(recursive_memoize::SECOND_PARAM_LIMIT),
    )
    &&& f.value(v(6)).kind == ValueKindView::Global(n.depth)
    &&& f.value(v(7)).kind == ValueKindView::Global(n.tags)
    &&& f.value(v(8)).kind == ValueKindView::Global(n.values)
}

proof fn lemma_parts(name: Seq<char>, n: NamesView)
    ensures
        ({
            let (f, w) = recursive_memoize::with_parts(recursive_memoize::skeleton(name), n);
            &&& w == parts()
            &&& has_size(f, 9)
            &&& has_parts(f, n)
            &&& forall|c: int| 0 <= c < 8 ==> #[trigger] at(f, c) == Seq::<InstView>::empty()
        }),
{
    reveal_with_fuel(emit::blocks_named, 9);
    let s = recursive_memoize::skeleton(name);
    let names = recursive_memoize::block_names();
    assert(names.len() == 7);
    assert(s.blocks.len() == 8);
    assert(s.values.len() == 2);
    assert forall|c: int| 0 <= c < 8 implies #[trigger] at(s, c) == Seq::<InstView>::empty() by {
    }
    let (f, w) = recursive_memoize::with_parts(s, n);
    assert(f.blocks == s.blocks);
    assert forall|c: int| 0 <= c < 8 implies #[trigger] at(f, c) == Seq::<InstView>::empty() by {
        assert(at(s, c) == Seq::<InstView>::empty());
    }
}

/// The instructions that open the wrapper.
pub open spec fn prepare_insts() -> Seq<InstView> {
    seq![
        defines(11, emit::binary(BinaryOp::Iadd, v(9), v(3))),
        does(emit::store(v(6), v(11))),
        defines(12, emit::comparison(CompareOp::Ge, v(0), v(2))),
        defines(13, emit::comparison(CompareOp::Lt, v(0), v(4))),
        defines(14, emit::comparison(CompareOp::Ge, v(1), v(2))),
        defines(15, emit::comparison(CompareOp::Lt, v(1), v(5))),
        defines(16, emit::binary(BinaryOp::And, v(12), v(13))),
        defines(17, emit::binary(BinaryOp::And, v(14), v(15))),
        defines(18, emit::binary(BinaryOp::And, v(16), v(17))),
    ]
}

#[verifier::rlimit(60)]
proof fn lemma_opening(f: FuncView)
    requires
        has_size(f, 9),
        forall|c: int| 0 <= c < 8 ==> #[trigger] at(f, c) == Seq::<InstView>::empty(),
    ensures
        ({
            let (g, o) = recursive_memoize::opening_built(f, parts());
            &&& o.depth == v(9)
            &&& has_size(g, 19)
            &&& persists(f, g)
            &&& g.entry == f.entry
            &&& at(g, 0) == seq![
                defines(9, emit::load(v(6))),
                defines(10, emit::comparison(CompareOp::Eq, v(9), v(2))),
            ]
            &&& at(g, 1) == seq![does(emit::zeroing(v(7), recursive_memoize::CACHE_BYTES))]
            &&& at(g, 2) == prepare_insts()
            &&& forall|c: int| 3 <= c < 8 ==> #[trigger] at(g, c) == Seq::<InstView>::empty()
            &&& g.terminator(BlockId(0)) == Some(emit::branch(v(10), 1, 2))
            &&& g.terminator(BlockId(1)) == Some(Terminator::Jump(BlockId(2)))
            &&& g.terminator(BlockId(2)) == Some(emit::branch(v(18), 3, 6))
        }),
{
    let w = parts();
    let k1 = emit::load(w.depth_ptr);
    let g1 = emit::emitted(f, 0, k1, Type::I32);
    lemma_emit(f, 0, k1, Type::I32, 9);
    let k2 = emit::comparison(CompareOp::Eq, v(9), w.zero);
    let g2 = emit::emitted(g1, 0, k2, Type::I1);
    lemma_emit(g1, 0, k2, Type::I1, 10);
    let g3 = emit::ended(g2, 0, emit::branch(v(10), 1, 2));
    lemma_end(g2, 0, emit::branch(v(10), 1, 2), 11);
    let k4 = emit::zeroing(w.tags_ptr, recursive_memoize::CACHE_BYTES);
    let g4 = emit::effected(g3, 1, k4);
    lemma_effect(g3, 1, k4, 11);
    let g5 = emit::ended(g4, 1, Terminator::Jump(BlockId(2)));
    lemma_end(g4, 1, Terminator::Jump(BlockId(2)), 11);
    let k6 = emit::binary(BinaryOp::Iadd, v(9), w.one);
    let g6 = emit::emitted(g5, 2, k6, Type::I32);
    lemma_emit(g5, 2, k6, Type::I32, 11);
    let k7 = emit::store(w.depth_ptr, v(11));
    let g7 = emit::effected(g6, 2, k7);
    lemma_effect(g6, 2, k7, 12);
    let k8 = emit::comparison(CompareOp::Ge, w.first, w.zero);
    let g8 = emit::emitted(g7, 2, k8, Type::I1);
    lemma_emit(g7, 2, k8, Type::I1, 12);
    let k9 = emit::comparison(CompareOp::Lt, w.first, w.first_limit);
    let g9 = emit::emitted(g8, 2, k9, Type::I1);
    lemma_emit(g8, 2, k9, Type::I1, 13);
    let k10 = emit::comparison(CompareOp::Ge, w.second, w.zero);
    let g10 = emit::emitted(g9, 2, k10, Type::I1);
    lemma_emit(g9, 2, k10, Type::I1, 14);
    let k11 = emit::comparison(CompareOp::Lt, w.second, w.second_limit);
    let g11 = emit::emitted(g10, 2, k11, Type::I1);
    lemma_emit(g10, 2, k11, Type::I1, 15);
    let k12 = emit::binary(BinaryOp::And, v(12), v(13));
    let g12 = emit::emitted(g11, 2, k12, Type::I1);
    lemma_emit(g11, 2, k12, Type::I1, 16);
    let k13 = emit::binary(BinaryOp::And, v(14), v(15));
    let g13 = emit::emitted(g12, 2, k13, Type::I1);
    lemma_emit(g12, 2, k13, Type::I1, 17);
    let k14 = emit::binary(BinaryOp::And, v(16), v(17));
    let g14 = emit::emitted(g13, 2, k14, Type::I1);
    lemma_emit(g13, 2, k14, Type::I1, 18);
    let g15 = emit::ended(g14, 2, emit::branch(v(18), 3, 6));
    lemma_end(g14, 2, emit::branch(v(18), 3, 6), 19);
    piecewise_laws::lemma_persists_on(f, g1, g2);
    piecewise_laws::lemma_persists_on(f, g2, g3);
    piecewise_laws::lemma_persists_on(f, g3, g4);
    piecewise_laws::lemma_persists_on(f, g4, g5);
    piecewise_laws::lemma_persists_on(f, g5, g6);
    piecewise_laws::lemma_persists_on(f, g6, g7);
    piecewise_laws::lemma_persists_on(f, g7, g8);
    piecewise_laws::lemma_persists_on(f, g8, g9);
    piecewise_laws::lemma_persists_on(f, g9, g10);
    piecewise_laws::lemma_persists_on(f, g10, g11);
    piecewise_laws::lemma_persists_on(f, g11, g12);
    piecewise_laws::lemma_persists_on(f, g12, g13);
    piecewise_laws::lemma_persists_on(f, g13, g14);
    piecewise_laws::lemma_persists_on(f, g14, g15);
    let (g, o) = recursive_memoize::opening_built(f, w);
    assert(g == g15);
    assert(at(g, 0) =~= seq![defines(9, k1), defines(10, k2)]);
    assert(at(g, 1) =~= seq![does(k4)]);
    assert(at(g, 2) =~= prepare_insts());
    assert forall|c: int| 3 <= c < 8 implies #[trigger] at(g, c) == Seq::<InstView>::empty() by {
        assert(at(f, c) == Seq::<InstView>::empty());
        assert(at(g3, c) == at(f, c)) by {
            assert(at(g1, c) == at(f, c));
            assert(at(g2, c) == at(g1, c));
        }
        assert(at(g5, c) == at(g4, c));
        assert(at(g8, c) == at(g7, c) && at(g7, c) == at(g6, c) && at(g6, c) == at(g5, c));
        assert(at(g11, c) == at(g10, c) && at(g10, c) == at(g9, c) && at(g9, c) == at(g8, c));
        assert(at(g14, c) == at(g13, c) && at(g13, c) == at(g12, c) && at(g12, c) == at(g11, c));
    }
    assert(g5.has_block(BlockId(0)) && g5.has_block(BlockId(1)) && g2.has_block(BlockId(1)));
    assert(g3.has_block(BlockId(0)) && g4.has_block(BlockId(0)));
    assert(g14.terminator(BlockId(0)) == g5.terminator(BlockId(0)) && g14.terminator(BlockId(1))
        == g5.terminator(BlockId(1))) by {
        assert forall|c: BlockId| c.0 < 8 implies #[trigger] g14.terminator(c) == g5.terminator(
            c,
        ) by {
            assert(g5.has_block(c) && g6.has_block(c) && g7.has_block(c) && g8.has_block(c));
            assert(g9.has_block(c) && g10.has_block(c) && g11.has_block(c));
            assert(g12.has_block(c) && g13.has_block(c));
        }
    }
    assert(g14.has_block(BlockId(0)) && g14.has_block(BlockId(1)));
}

/// The instructions that look the slot up.
pub open spec fn lookup_insts() -> Seq<InstView> {
    seq![
        defines(20, emit::binary(BinaryOp::Imul, v(0), v(19))),
        defines(21, emit::binary(BinaryOp::Iadd, v(20), v(1))),
        defines(22, emit::element(v(7), v(2), v(21))),
        defines(23, emit::element(v(8), v(2), v(21))),
        defines(24, emit::load(v(22))),
        defines(25, emit::comparison(CompareOp::Ne, v(24), v(2))),
    ]
}

proof fn lemma_lookup(f: FuncView)
    requires
        has_size(f, 20),
        forall|c: int| 3 <= c < 8 ==> #[trigger] at(f, c) == Seq::<InstView>::empty(),
    ensures
        ({
            let (g, l) = recursive_memoize::lookup_built(f, parts(), v(19));
            &&& l == (Lookup { tag_slot: v(22), value_slot: v(23), hit_value: v(26) })
            &&& has_size(g, 27)
            &&& persists(f, g)
            &&& g.entry == f.entry
            &&& forall|c: int| 0 <= c < 8 && c != 3 && c != 4 ==> #[trigger] at(g, c) == at(f, c)
            &&& at(g, 3) == lookup_insts()
            &&& at(g, 4) == seq![defines(26, emit::load(v(23)))]
            &&& g.terminator(BlockId(3)) == Some(emit::branch(v(25), 4, 5))
            &&& g.terminator(BlockId(4)) == Some(Terminator::Jump(BlockId(7)))
            &&& forall|c: BlockId| #[trigger]
                f.has_block(c) && c.0 != 3 && c.0 != 4 ==> g.terminator(c) == f.terminator(c)
        }),
{
    let w = parts();
    let ty = Type::Ptr(Box::new(Type::I32));
    let k1 = emit::binary(BinaryOp::Imul, w.first, v(19));
    let g1 = emit::emitted(f, 3, k1, Type::I32);
    lemma_emit(f, 3, k1, Type::I32, 20);
    let k2 = emit::binary(BinaryOp::Iadd, v(20), w.second);
    let g2 = emit::emitted(g1, 3, k2, Type::I32);
    lemma_emit(g1, 3, k2, Type::I32, 21);
    let k3 = emit::element(w.tags_ptr, w.zero, v(21));
    let g3 = emit::emitted(g2, 3, k3, ty);
    lemma_emit(g2, 3, k3, ty, 22);
    let k4 = emit::element(w.values_ptr, w.zero, v(21));
    let g4 = emit::emitted(g3, 3, k4, ty);
    lemma_emit(g3, 3, k4, ty, 23);
    let k5 = emit::load(v(22));
    let g5 = emit::emitted(g4, 3, k5, Type::I32);
    lemma_emit(g4, 3, k5, Type::I32, 24);
    let k6 = emit::comparison(CompareOp::Ne, v(24), w.zero);
    let g6 = emit::emitted(g5, 3, k6, Type::I1);
    lemma_emit(g5, 3, k6, Type::I1, 25);
    let g7 = emit::ended(g6, 3, emit::branch(v(25), 4, 5));
    lemma_end(g6, 3, emit::branch(v(25), 4, 5), 26);
    let k8 = emit::load(v(23));
    let g8 = emit::emitted(g7, 4, k8, Type::I32);
    lemma_emit(g7, 4, k8, Type::I32, 26);
    let g9 = emit::ended(g8, 4, Terminator::Jump(BlockId(7)));
    lemma_end(g8, 4, Terminator::Jump(BlockId(7)), 27);
    piecewise_laws::lemma_persists_on(f, g1, g2);
    piecewise_laws::lemma_persists_on(f, g2, g3);
    piecewise_laws::lemma_persists_on(f, g3, g4);
    piecewise_laws::lemma_persists_on(f, g4, g5);
    piecewise_laws::lemma_persists_on(f, g5, g6);
    piecewise_laws::lemma_persists_on(f, g6, g7);
    piecewise_laws::lemma_persists_on(f, g7, g8);
    piecewise_laws::lemma_persists_on(f, g8, g9);
    let (g, l) = recursive_memoize::lookup_built(f, w, v(19));
    assert(g == g9);
    assert(at(f, 3) == Seq::<InstView>::empty() && at(f, 4) == Seq::<InstView>::empty());
    assert(at(g, 3) =~= lookup_insts()) by {
        assert(at(g9, 3) == at(g8, 3) && at(g8, 3) == at(g7, 3) && at(g7, 3) == at(g6, 3));
    }
    assert(at(g, 4) =~= seq![defines(26, k8)]) by {
        assert(at(g7, 4) == at(g6, 4) && at(g6, 4) == at(g5, 4) && at(g5, 4) == at(g4, 4));
        assert(at(g4, 4) == at(g3, 4) && at(g3, 4) == at(g2, 4) && at(g2, 4) == at(g1, 4));
    }
    assert forall|c: int| 0 <= c < 8 && c != 3 && c != 4 implies #[trigger] at(g, c) == at(
        f,
        c,
    ) by {
        assert(at(g9, c) == at(g8, c) && at(g8, c) == at(g7, c) && at(g7, c) == at(g6, c));
        assert(at(g6, c) == at(g5, c) && at(g5, c) == at(g4, c) && at(g4, c) == at(g3, c));
        assert(at(g3, c) == at(g2, c) && at(g2, c) == at(g1, c) && at(g1, c) == at(f, c));
    }
    assert(g7.has_block(BlockId(3)) && g8.has_block(BlockId(3)));
    assert forall|c: BlockId| #[trigger]
        f.has_block(c) && c.0 != 3 && c.0 != 4 implies g.terminator(c) == f.terminator(c) by {
        assert(g1.has_block(c) && g2.has_block(c) && g3.has_block(c) && g4.has_block(c));
        assert(g5.has_block(c) && g6.has_block(c) && g7.has_block(c) && g8.has_block(c));
    }
}

proof fn lemma_closing(f: FuncView, o: Opening, l: Lookup, body: Seq<char>)
    requires
        has_size(f, 27),
        forall|c: int| 5 <= c < 8 ==> #[trigger] at(f, c) == Seq::<InstView>::empty(),
        o.depth == v(9),
        l == (Lookup { tag_slot: v(22), value_slot: v(23), hit_value: v(26) }),
    ensures
        ({
            let g = recursive_memoize::closing_built(f, parts(), o, l, body);
            &&& has_size(g, 30)
            &&& persists(f, g)
            &&& g.entry == f.entry
            &&& forall|c: int| 0 <= c < 5 ==> #[trigger] at(g, c) == at(f, c)
            &&& at(g, 5) == seq![
                defines(27, emit::call(body, seq![v(0), v(1)])),
                does(emit::store(v(23), v(27))),
                does(emit::store(v(22), v(3))),
            ]
            &&& at(g, 6) == seq![defines(28, emit::call(body, seq![v(0), v(1)]))]
            &&& at(g, 7) == seq![
                defines(
                    29,
                    emit::phi(
                        seq![(BlockId(4), v(26)), (BlockId(5), v(27)), (BlockId(6), v(28))],
                    ),
                ),
                does(emit::store(v(6), v(9))),
            ]
            &&& g.terminator(BlockId(5)) == Some(Terminator::Jump(BlockId(7)))
            &&& g.terminator(BlockId(6)) == Some(Terminator::Jump(BlockId(7)))
            &&& g.terminator(BlockId(7)) == Some(Terminator::Return(Some(v(29))))
            &&& forall|c: BlockId| #[trigger]
                f.has_block(c) && c.0 < 5 ==> g.terminator(c) == f.terminator(c)
        }),
{
    let w = parts();
    let call = emit::call(body, seq![w.first, w.second]);
    let g1 = emit::emitted(f, 5, call, Type::I32);
    lemma_emit(f, 5, call, Type::I32, 27);
    let g2 = emit::effected(g1, 5, emit::store(v(23), v(27)));
    lemma_effect(g1, 5, emit::store(v(23), v(27)), 28);
    let g3 = emit::effected(g2, 5, emit::store(v(22), w.one));
    lemma_effect(g2, 5, emit::store(v(22), w.one), 28);
    let g4 = emit::ended(g3, 5, Terminator::Jump(BlockId(7)));
    lemma_end(g3, 5, Terminator::Jump(BlockId(7)), 28);
    let g5 = emit::emitted(g4, 6, call, Type::I32);
    lemma_emit(g4, 6, call, Type::I32, 28);
    let g6 = emit::ended(g5, 6, Terminator::Jump(BlockId(7)));
    lemma_end(g5, 6, Terminator::Jump(BlockId(7)), 29);
    let k7 = emit::phi(seq![(BlockId(4), v(26)), (BlockId(5), v(27)), (BlockId(6), v(28))]);
    let g7 = emit::emitted(g6, 7, k7, Type::I32);
    lemma_emit(g6, 7, k7, Type::I32, 29);
    let g8 = emit::effected(g7, 7, emit::store(w.depth_ptr, v(9)));
    lemma_effect(g7, 7, emit::store(w.depth_ptr, v(9)), 30);
    let g9 = emit::ended(g8, 7, Terminator::Return(Some(v(29))));
    lemma_end(g8, 7, Terminator::Return(Some(v(29))), 30);
    piecewise_laws::lemma_persists_on(f, g1, g2);
    piecewise_laws::lemma_persists_on(f, g2, g3);
    piecewise_laws::lemma_persists_on(f, g3, g4);
    piecewise_laws::lemma_persists_on(f, g4, g5);
    piecewise_laws::lemma_persists_on(f, g5, g6);
    piecewise_laws::lemma_persists_on(f, g6, g7);
    piecewise_laws::lemma_persists_on(f, g7, g8);
    piecewise_laws::lemma_persists_on(f, g8, g9);
    let g = recursive_memoize::closing_built(f, w, o, l, body);
    assert(g == g9);
    assert(at(f, 5) == Seq::<InstView>::empty() && at(f, 6) == Seq::<InstView>::empty() && at(f, 7)
        == Seq::<InstView>::empty());
    assert(at(g, 5) =~= seq![
        defines(27, call),
        does(emit::store(v(23), v(27))),
        does(emit::store(v(22), v(3))),
    ]) by {
        assert(at(g9, 5) == at(g8, 5) && at(g8, 5) == at(g7, 5) && at(g7, 5) == at(g6, 5));
        assert(at(g6, 5) == at(g5, 5) && at(g5, 5) == at(g4, 5) && at(g4, 5) == at(g3, 5));
    }
    assert(at(g, 6) =~= seq![defines(28, call)]) by {
        assert(at(g9, 6) == at(g8, 6) && at(g8, 6) == at(g7, 6) && at(g7, 6) == at(g6, 6));
        assert(at(g6, 6) == at(g5, 6) && at(g4, 6) == at(g3, 6));
        assert(at(g3, 6) == at(g2, 6) && at(g2, 6) == at(g1, 6) && at(g1, 6) == at(f, 6));
    }
    assert(at(g, 7) =~= seq![defines(29, k7), does(emit::store(v(6), v(9)))]) by {
        assert(at(g9, 7) == at(g8, 7) && at(g6, 7) == at(g5, 7) && at(g5, 7) == at(g4, 7));
        assert(at(g4, 7) == at(g3, 7) && at(g3, 7) == at(g2, 7) && at(g2, 7) == at(g1, 7));
    }
    assert forall|c: int| 0 <= c < 5 implies #[trigger] at(g, c) == at(f, c) by {
        assert(at(g9, c) == at(g8, c) && at(g8, c) == at(g7, c) && at(g7, c) == at(g6, c));
        assert(at(g6, c) == at(g5, c) && at(g5, c) == at(g4, c) && at(g4, c) == at(g3, c));
        assert(at(g3, c) == at(g2, c) && at(g2, c) == at(g1, c) && at(g1, c) == at(f, c));
    }
    assert forall|c: BlockId| #[trigger] f.has_block(c) && c.0 < 7 implies g1.has_block(c)
        && g2.has_block(c) && g3.has_block(c) && g4.has_block(c) && g5.has_block(c)
        && g6.has_block(c) && g7.has_block(c) && g8.has_block(c) by {
    }
    assert(f.has_block(BlockId(5)) && f.has_block(BlockId(6)));
}

/// The wrapper, block by block.
pub open spec fn stands(g: FuncView, n: NamesView) -> bool {
    &&& has_size(g, 30)
    &&& has_parts(g, n)
    &&& g.value(v(19)).kind == ValueKindView::Const(
        Const::Int(recursive_memoize::SECOND_PARAM_LIMIT),
    )
    &&& at(g, 0) == seq![
        defines(9, emit::load(v(6))),
        defines(10, emit::comparison(CompareOp::Eq, v(9), v(2))),
    ]
    &&& at(g, 1) == seq![does(emit::zeroing(v(7), recursive_memoize::CACHE_BYTES))]
    &&& at(g, 2) == prepare_insts()
    &&& at(g, 3) == lookup_insts()
    &&& at(g, 4) == seq![defines(26, emit::load(v(23)))]
    &&& at(g, 5) == seq![
        defines(27, emit::call(n.body, seq![v(0), v(1)])),
        does(emit::store(v(23), v(27))),
        does(emit::store(v(22), v(3))),
    ]
    &&& at(g, 6) == seq![defines(28, emit::call(n.body, seq![v(0), v(1)]))]
    &&& at(g, 7) == seq![
        defines(
            29,
            emit::phi(seq![(BlockId(4), v(26)), (BlockId(5), v(27)), (BlockId(6), v(28))]),
        ),
        does(emit::store(v(6), v(9))),
    ]
    &&& g.terminator(BlockId(0)) == Some(emit::branch(v(10), 1, 2))
    &&& g.terminator(BlockId(1)) == Some(Terminator::Jump(BlockId(2)))
    &&& g.terminator(BlockId(2)) == Some(emit::branch(v(18), 3, 6))
    &&& g.terminator(BlockId(3)) == Some(emit::branch(v(25), 4, 5))
    &&& g.terminator(BlockId(4)) == Some(Terminator::Jump(BlockId(7)))
    &&& g.terminator(BlockId(5)) == Some(Terminator::Jump(BlockId(7)))
    &&& g.terminator(BlockId(6)) == Some(Terminator::Jump(BlockId(7)))
    &&& g.terminator(BlockId(7)) == Some(Terminator::Return(Some(v(29))))
}

proof fn lemma_wrapper(name: Seq<char>, n: NamesView)
    ensures
        stands(recursive_memoize::wrapper(name, n), n),
{
    let (f1, w) = recursive_memoize::with_parts(recursive_memoize::skeleton(name), n);
    lemma_parts(name, n);
    let (f2, o) = recursive_memoize::opening_built(f1, w);
    lemma_opening(f1);
    let f3 = f2.add_const(Const::Int(recursive_memoize::SECOND_PARAM_LIMIT));
    assert(f2.next_value() == v(19));
    assert(persists(f2, f3));
    assert forall|c: int| 0 <= c < 8 implies #[trigger] at(f3, c) == at(f2, c) by {
    }
    let (f4, l) = recursive_memoize::lookup_built(f3, w, v(19));
    lemma_lookup(f3);
    lemma_closing(f4, o, l, n.body);
    let g = recursive_memoize::closing_built(f4, w, o, l, n.body);
    assert(g == recursive_memoize::wrapper(name, n));
    piecewise_laws::lemma_persists_on(f3, f4, g);
    piecewise_laws::lemma_persists_on(f2, f3, g);
    piecewise_laws::lemma_persists_on(f1, f2, g);
    assert forall|k: int| 0 <= k < 9 implies #[trigger] g.value(v(k)) == f1.value(v(k)) by {
        assert(f1.has_value(v(k)));
    }
    assert(f3.has_value(v(19)));
    assert(g.value(v(19)) == f3.value(v(19)));
    assert(at(g, 0) == at(f4, 0) && at(f4, 0) == at(f3, 0) && at(f3, 0) == at(f2, 0));
    assert(at(g, 1) == at(f4, 1) && at(f4, 1) == at(f3, 1) && at(f3, 1) == at(f2, 1));
    assert(at(g, 2) == at(f4, 2) && at(f4, 2) == at(f3, 2) && at(f3, 2) == at(f2, 2));
    assert(at(g, 3) == at(f4, 3) && at(g, 4) == at(f4, 4));
    assert(f3.has_block(BlockId(0)) && f3.has_block(BlockId(1)) && f3.has_block(BlockId(2)));
    assert(f4.has_block(BlockId(0)) && f4.has_block(BlockId(1)) && f4.has_block(BlockId(2)));
    assert(f4.has_block(BlockId(3)) && f4.has_block(BlockId(4)));
    assert(f3.terminator(BlockId(0)) == f2.terminator(BlockId(0)) && f3.terminator(BlockId(1))
        == f2.terminator(BlockId(1)) && f3.terminator(BlockId(2)) == f2.terminator(BlockId(2)));
    assert(g.value(v(0)) == f1.value(v(0)) && g.value(v(1)) == f1.value(v(1)) && g.value(v(2))
        == f1.value(v(2)) && g.value(v(3)) == f1.value(v(3)) && g.value(v(4)) == f1.value(v(4))
        && g.value(v(5)) == f1.value(v(5)) && g.value(v(6)) == f1.value(v(6)) && g.value(v(7))
        == f1.value(v(7)) && g.value(v(8)) == f1.value(v(8)));
}

// ---------------------------------------------------------------------------
// Single instructions
// ---------------------------------------------------------------------------

/// What a load gives, and the memory behind it.
pub open spec fn loaded<D, M>(m: Meaning<D, M>, ptr: D, memory: M) -> (D, M) {
    (m.apply)(semantics::shape(emit::load(v(0))), seq![ptr], memory)
}

/// The memory with the tags cleared.
pub open spec fn cleared<D, M>(m: Meaning<D, M>, ptr: D, memory: M) -> M {
    (m.apply)(
        semantics::shape(emit::zeroing(v(0), recursive_memoize::CACHE_BYTES)),
        seq![ptr],
        memory,
    ).1
}

/// What a call of the body gives, and the memory behind it.
pub open spec fn called<D, M>(m: Meaning<D, M>, body: Seq<char>, a: D, b: D, memory: M) -> (D, M) {
    (m.apply)(semantics::shape(emit::call(body, seq![v(0), v(1)])), seq![a, b], memory)
}

/// The address of an element.
pub open spec fn element_of<D, M>(m: Meaning<D, M>, base: D, zero: D, index: D, memory: M) -> D {
    m.result(emit::element(v(0), v(1), v(2)), seq![base, zero, index], memory)
}

pub proof fn lemma_binary_one<D, M>(
    m: Meaning<D, M>,
    id: int,
    op: BinaryOp,
    x: ValueId,
    y: ValueId,
    e: Map<ValueId, D>,
    memory: M,
)
    requires
        m.computes_apart_from_memory(),
    ensures
        one(m, defines(id, emit::binary(op, x, y)), e, memory) == (
            e.insert(v(id), m.of_two(op, x, y, e[x], e[y], memory)),
            memory,
        ),
{
    let kind = emit::binary(op, x, y);
    assert(ssa::data_of(kind, e) =~= seq![e[x], e[y]]);
    ssa::lemma_shape_plain(kind);
}

pub proof fn lemma_compare_one<D, M>(
    m: Meaning<D, M>,
    id: int,
    op: CompareOp,
    x: ValueId,
    y: ValueId,
    e: Map<ValueId, D>,
    memory: M,
)
    requires
        m.computes_apart_from_memory(),
    ensures
        one(m, defines(id, emit::comparison(op, x, y)), e, memory) == (
            e.insert(v(id), of_compare(m, op, x, y, e[x], e[y], memory)),
            memory,
        ),
{
    let kind = emit::comparison(op, x, y);
    assert(ssa::data_of(kind, e) =~= seq![e[x], e[y]]);
    ssa::lemma_shape_plain(kind);
}

pub proof fn lemma_element_one<D, M>(
    m: Meaning<D, M>,
    id: int,
    base: ValueId,
    zero: ValueId,
    index: ValueId,
    e: Map<ValueId, D>,
    memory: M,
)
    requires
        m.computes_apart_from_memory(),
    ensures
        one(m, defines(id, emit::element(base, zero, index)), e, memory) == (
            e.insert(v(id), element_of(m, e[base], e[zero], e[index], memory)),
            memory,
        ),
{
    let kind = emit::element(base, zero, index);
    let same = emit::element(v(0), v(1), v(2));
    let none = |x: ValueId| ValueId(0);
    assert(seq![zero, index].map_values(none) =~= seq![v(1), v(2)].map_values(none));
    assert(semantics::shape(kind) == semantics::shape(same));
    assert(ssa::data_of(kind, e) =~= seq![e[base], e[zero], e[index]]);
    ssa::lemma_shape_plain(kind);
}

pub proof fn lemma_load_one<D, M>(
    m: Meaning<D, M>,
    id: int,
    ptr: ValueId,
    e: Map<ValueId, D>,
    memory: M,
)
    ensures
        one(m, defines(id, emit::load(ptr)), e, memory) == (
            e.insert(v(id), loaded(m, e[ptr], memory).0),
            loaded(m, e[ptr], memory).1,
        ),
{
    assert(ssa::data_of(emit::load(ptr), e) =~= seq![e[ptr]]);
}

pub proof fn lemma_store_one<D, M>(
    m: Meaning<D, M>,
    ptr: ValueId,
    value: ValueId,
    e: Map<ValueId, D>,
    memory: M,
)
    ensures
        one(m, does(emit::store(ptr, value)), e, memory) == (
            e,
            after_store(m, e[ptr], e[value], memory),
        ),
{
    assert(ssa::data_of(emit::store(ptr, value), e) =~= seq![e[ptr], e[value]]);
}

pub proof fn lemma_call_one<D, M>(
    m: Meaning<D, M>,
    id: int,
    body: Seq<char>,
    e: Map<ValueId, D>,
    memory: M,
)
    ensures
        one(m, defines(id, emit::call(body, seq![v(0), v(1)])), e, memory) == (
            e.insert(v(id), called(m, body, e[v(0)], e[v(1)], memory).0),
            called(m, body, e[v(0)], e[v(1)], memory).1,
        ),
{
    assert(ssa::data_of(emit::call(body, seq![v(0), v(1)]), e) =~= seq![e[v(0)], e[v(1)]]);
}

// ---------------------------------------------------------------------------
// What the wrapper computes
// ---------------------------------------------------------------------------

/// The index of the slot of the arguments.
pub open spec fn index_of<D, M>(m: Meaning<D, M>, a: D, b: D, memory: M) -> D {
    let limit = m.integer(recursive_memoize::SECOND_PARAM_LIMIT);
    m.of_two(
        BinaryOp::Iadd,
        v(20),
        v(1),
        m.of_two(BinaryOp::Imul, v(0), v(19), a, limit, memory),
        b,
        memory,
    )
}

/// What is in the slot of the arguments, where its tag is set; else the result of
/// the body, which is kept in the slot, and the tag is set.
pub open spec fn looked_up<D, M>(
    m: Meaning<D, M>,
    number: spec_fn(D) -> i32,
    n: NamesView,
    a: D,
    b: D,
    memory: M,
) -> (D, M) {
    let i = index_of(m, a, b, memory);
    let tag_slot = element_of(m, (m.global)(n.tags), m.integer(0), i, memory);
    let value_slot = element_of(m, (m.global)(n.values), m.integer(0), i, memory);
    let (tag, mem) = loaded(m, tag_slot, memory);
    if number(tag) != 0 {
        loaded(m, value_slot, mem)
    } else {
        let (r, behind) = called(m, n.body, a, b, mem);
        (r, after_store(m, tag_slot, m.integer(1), after_store(m, value_slot, r, behind)))
    }
}

/// The arguments have a slot.
pub open spec fn has_slot(a: i32, b: i32) -> bool {
    0 <= a < recursive_memoize::FIRST_PARAM_LIMIT && 0 <= b < recursive_memoize::SECOND_PARAM_LIMIT
}

/// What a call of the wrapper returns, and the memory behind it. The depth of the
/// recursion is counted; the outermost call clears the tags. Arguments with a slot
/// are looked up, others are handed to the body. At the end the depth is what it
/// was.
pub open spec fn wrapped<D, M>(
    m: Meaning<D, M>,
    number: spec_fn(D) -> i32,
    n: NamesView,
    a: D,
    b: D,
    memory: M,
) -> (D, M) {
    let at_depth = (m.global)(n.depth);
    let (depth, mem) = loaded(m, at_depth, memory);
    let ready = if number(depth) == 0 {
        cleared(m, (m.global)(n.tags), mem)
    } else {
        mem
    };
    let deeper = m.of_two(BinaryOp::Iadd, v(9), v(3), depth, m.integer(1), ready);
    let inside = after_store(m, at_depth, deeper, ready);
    let (r, behind) = if has_slot(number(a), number(b)) {
        looked_up(m, number, n, a, b, inside)
    } else {
        called(m, n.body, a, b, inside)
    };
    (r, after_store(m, at_depth, depth, behind))
}

/// The data of the wrapper's arguments, constants and globals.
pub open spec fn is_based<D, M>(
    m: Meaning<D, M>,
    n: NamesView,
    a: D,
    b: D,
    e: Map<ValueId, D>,
) -> bool {
    &&& e[v(0)] == a
    &&& e[v(1)] == b
    &&& e[v(2)] == m.integer(0)
    &&& e[v(3)] == m.integer(1)
    &&& e[v(4)] == m.integer(recursive_memoize::FIRST_PARAM_LIMIT)
    &&& e[v(5)] == m.integer(recursive_memoize::SECOND_PARAM_LIMIT)
    &&& e[v(6)] == (m.global)(n.depth)
    &&& e[v(7)] == (m.global)(n.tags)
    &&& e[v(8)] == (m.global)(n.values)
    &&& e[v(19)] == m.integer(recursive_memoize::SECOND_PARAM_LIMIT)
}

/// Control arrives at a block without phis.
proof fn lemma_arrives<D, M>(
    g: FuncView,
    n: NamesView,
    from: int,
    to: int,
    e: Map<ValueId, D>,
    memory: M,
)
    requires
        stands(g, n),
        0 <= to < 7,
    ensures
        semantics::arrived::<D, M>(
            g,
            BlockId(from as usize),
            BlockId(to as usize),
            e,
            memory,
        ) == (State::<D, M>::Running { block: BlockId(to as usize), env: e, memory }),
{
    let list = at(g, to);
    assert forall|i: int| 0 <= i < list.len() implies !((#[trigger] list[i]).kind is Phi)
        || list[i].result is None by {
    }
    semantics::lemma_nothing_assigned(list, list.len() as int, BlockId(from as usize), e);
}

proof fn lemma_run_entry<D, M>(
    g: FuncView,
    m: Meaning<D, M>,
    number: spec_fn(D) -> i32,
    n: NamesView,
    a: D,
    b: D,
    e: Map<ValueId, D>,
    memory: M,
) -> (r: Map<ValueId, D>)
    requires
        stands(g, n),
        m.computes_apart_from_memory(),
        computes_integers(m, number),
        is_based(m, n, a, b, e),
    ensures
        ({
            let (depth, mem) = loaded(m, (m.global)(n.depth), memory);
            &&& semantics::step(g, m, State::Running { block: BlockId(0), env: e, memory })
                == (State::Running {
                block: if number(depth) == 0 {
                    BlockId(1)
                } else {
                    BlockId(2)
                },
                env: r,
                memory: mem,
            })
            &&& is_based(m, n, a, b, r)
            &&& r[v(9)] == depth
        }),
{
    let insts = at(g, 0);
    let (depth, mem) = loaded(m, (m.global)(n.depth), memory);
    assert(semantics::executed(m, insts, 0, e, memory) == (e, memory));
    lemma_load_one(m, 9, v(6), e, memory);
    let e1 = e.insert(v(9), depth);
    assert(semantics::executed(m, insts, 1, e, memory) == one(m, insts[0], e, memory));
    lemma_compare_one(m, 10, CompareOp::Eq, v(9), v(2), e1, mem);
    let e2 = e1.insert(v(10), of_compare(m, CompareOp::Eq, v(9), v(2), e1[v(9)], e1[v(2)], mem));
    assert(semantics::executed(m, insts, 2, e, memory) == one(m, insts[1], e1, mem));
    assert((m.truth)(e2[v(10)]) == (number(depth) == 0));
    lemma_arrives::<D, M>(g, n, 0, 1, e2, mem);
    lemma_arrives::<D, M>(g, n, 0, 2, e2, mem);
    e2
}

#[verifier::rlimit(40)]
proof fn lemma_run_prepare<D, M>(
    g: FuncView,
    m: Meaning<D, M>,
    number: spec_fn(D) -> i32,
    n: NamesView,
    a: D,
    b: D,
    e: Map<ValueId, D>,
    memory: M,
) -> (r: Map<ValueId, D>)
    requires
        stands(g, n),
        m.computes_apart_from_memory(),
        m.has_booleans(),
        computes_integers(m, number),
        is_based(m, n, a, b, e),
    ensures
        ({
            let deeper = m.of_two(BinaryOp::Iadd, v(9), v(3), e[v(9)], m.integer(1), memory);
            &&& semantics::step(g, m, State::Running { block: BlockId(2), env: e, memory })
                == (State::Running {
                block: if has_slot(number(a), number(b)) {
                    BlockId(3)
                } else {
                    BlockId(6)
                },
                env: r,
                memory: after_store(m, (m.global)(n.depth), deeper, memory),
            })
            &&& is_based(m, n, a, b, r)
            &&& r[v(9)] == e[v(9)]
        }),
{
    let insts = at(g, 2);
    assert(insts == prepare_insts());
    let deeper = m.of_two(BinaryOp::Iadd, v(9), v(3), e[v(9)], m.integer(1), memory);
    let mem = after_store(m, (m.global)(n.depth), deeper, memory);
    assert(semantics::executed(m, insts, 0, e, memory) == (e, memory));
    lemma_binary_one(m, 11, BinaryOp::Iadd, v(9), v(3), e, memory);
    let e1 = e.insert(v(11), deeper);
    assert(semantics::executed(m, insts, 1, e, memory) == one(m, insts[0], e, memory));
    lemma_store_one(m, v(6), v(11), e1, memory);
    assert(semantics::executed(m, insts, 2, e, memory) == one(m, insts[1], e1, memory));
    assert(semantics::executed(m, insts, 2, e, memory) == (e1, mem));
    lemma_compare_one(m, 12, CompareOp::Ge, v(0), v(2), e1, mem);
    let e2 = e1.insert(v(12), of_compare(m, CompareOp::Ge, v(0), v(2), e1[v(0)], e1[v(2)], mem));
    assert(semantics::executed(m, insts, 3, e, memory) == one(m, insts[2], e1, mem));
    lemma_compare_one(m, 13, CompareOp::Lt, v(0), v(4), e2, mem);
    let e3 = e2.insert(v(13), of_compare(m, CompareOp::Lt, v(0), v(4), e2[v(0)], e2[v(4)], mem));
    assert(semantics::executed(m, insts, 4, e, memory) == one(m, insts[3], e2, mem));
    lemma_compare_one(m, 14, CompareOp::Ge, v(1), v(2), e3, mem);
    let e4 = e3.insert(v(14), of_compare(m, CompareOp::Ge, v(1), v(2), e3[v(1)], e3[v(2)], mem));
    assert(semantics::executed(m, insts, 5, e, memory) == one(m, insts[4], e3, mem));
    lemma_compare_one(m, 15, CompareOp::Lt, v(1), v(5), e4, mem);
    let e5 = e4.insert(v(15), of_compare(m, CompareOp::Lt, v(1), v(5), e4[v(1)], e4[v(5)], mem));
    assert(semantics::executed(m, insts, 6, e, memory) == one(m, insts[5], e4, mem));
    lemma_binary_one(m, 16, BinaryOp::And, v(12), v(13), e5, mem);
    let e6 = e5.insert(
        v(16),
        m.of_two(BinaryOp::And, v(12), v(13), e5[v(12)], e5[v(13)], mem),
    );
    assert(semantics::executed(m, insts, 7, e, memory) == one(m, insts[6], e5, mem));
    lemma_binary_one(m, 17, BinaryOp::And, v(14), v(15), e6, mem);
    let e7 = e6.insert(
        v(17),
        m.of_two(BinaryOp::And, v(14), v(15), e6[v(14)], e6[v(15)], mem),
    );
    assert(semantics::executed(m, insts, 8, e, memory) == one(m, insts[7], e6, mem));
    lemma_binary_one(m, 18, BinaryOp::And, v(16), v(17), e7, mem);
    let e8 = e7.insert(
        v(18),
        m.of_two(BinaryOp::And, v(16), v(17), e7[v(16)], e7[v(17)], mem),
    );
    assert(semantics::executed(m, insts, 9, e, memory) == one(m, insts[8], e7, mem));
    assert((m.truth)(e7[v(16)]) == (0 <= number(a) < recursive_memoize::FIRST_PARAM_LIMIT));
    assert((m.truth)(e7[v(17)]) == (0 <= number(b) < recursive_memoize::SECOND_PARAM_LIMIT));
    assert((m.truth)(e8[v(18)]) == has_slot(number(a), number(b)));
    lemma_arrives::<D, M>(g, n, 2, 3, e8, mem);
    lemma_arrives::<D, M>(g, n, 2, 6, e8, mem);
    e8
}

proof fn lemma_run_clear<D, M>(
    g: FuncView,
    m: Meaning<D, M>,
    n: NamesView,
    a: D,
    b: D,
    e: Map<ValueId, D>,
    memory: M,
)
    requires
        stands(g, n),
        is_based(m, n, a, b, e),
    ensures
        semantics::step(g, m, State::Running { block: BlockId(1), env: e, memory })
            == (State::Running {
            block: BlockId(2),
            env: e,
            memory: cleared(m, (m.global)(n.tags), memory),
        }),
{
    let insts = at(g, 1);
    let kind = emit::zeroing(v(7), recursive_memoize::CACHE_BYTES);
    let mem = cleared(m, (m.global)(n.tags), memory);
    assert(semantics::executed(m, insts, 0, e, memory) == (e, memory));
    assert(ssa::data_of(kind, e) =~= seq![e[v(7)]]);
    assert(one(m, does(kind), e, memory) == (e, mem));
    assert(semantics::executed(m, insts, 1, e, memory) == one(m, insts[0], e, memory));
    lemma_arrives::<D, M>(g, n, 1, 2, e, mem);
}

/// The end of the wrapper: the result is taken, and the depth restored.
proof fn lemma_run_finish<D, M>(
    g: FuncView,
    m: Meaning<D, M>,
    n: NamesView,
    a: D,
    b: D,
    from: int,
    e: Map<ValueId, D>,
    memory: M,
)
    requires
        stands(g, n),
        is_based(m, n, a, b, e),
        4 <= from <= 6,
    ensures
        semantics::step(
            g,
            m,
            semantics::arrived(g, BlockId(from as usize), BlockId(7), e, memory),
        ) == (State::Returned {
            value: Some(e[v(from + 22)]),
            memory: after_store(m, (m.global)(n.depth), e[v(9)], memory),
        }),
{
    let insts = at(g, 7);
    let pred = BlockId(from as usize);
    let incomings = seq![(BlockId(4), v(26)), (BlockId(5), v(27)), (BlockId(6), v(28))];
    assert(util::incoming_from(incomings, pred) == Some(v(from + 22))) by {
        reveal_with_fuel(util::incoming_from, 4);
        assert(incomings.drop_first() =~= seq![(BlockId(5), v(27)), (BlockId(6), v(28))]);
        assert(incomings.drop_first().drop_first() =~= seq![(BlockId(6), v(28))]);
    }
    let x = e.insert(v(29), e[v(from + 22)]);
    assert(semantics::phis_assigned(insts, 0, pred, e) == e);
    assert(semantics::phis_assigned(insts, 1, pred, e) == x);
    assert(semantics::phis_assigned(insts, 2, pred, e) == x);
    assert(semantics::executed(m, insts, 0, x, memory) == (x, memory));
    assert(semantics::executed(m, insts, 1, x, memory) == (x, memory));
    lemma_store_one(m, v(6), v(9), x, memory);
    assert(semantics::executed(m, insts, 2, x, memory) == one(m, insts[1], x, memory));
}

/// A call without a slot is handed to the body.
proof fn lemma_run_uncached<D, M>(
    g: FuncView,
    m: Meaning<D, M>,
    n: NamesView,
    a: D,
    b: D,
    e: Map<ValueId, D>,
    memory: M,
)
    requires
        stands(g, n),
        is_based(m, n, a, b, e),
    ensures
        ({
            let (r, behind) = called(m, n.body, a, b, memory);
            semantics::steps(g, m, State::Running { block: BlockId(6), env: e, memory }, 2)
                == (State::Returned {
                value: Some(r),
                memory: after_store(m, (m.global)(n.depth), e[v(9)], behind),
            })
        }),
{
    let insts = at(g, 6);
    let s = State::Running { block: BlockId(6), env: e, memory };
    let (r, behind) = called(m, n.body, a, b, memory);
    assert(semantics::executed(m, insts, 0, e, memory) == (e, memory));
    lemma_call_one(m, 28, n.body, e, memory);
    let x = e.insert(v(28), r);
    assert(semantics::executed(m, insts, 1, e, memory) == one(m, insts[0], e, memory));
    semantics::lemma_few_steps(g, m, s);
    lemma_run_finish(g, m, n, a, b, 6, x, behind);
}

/// A call with a slot is looked up.
#[verifier::rlimit(40)]
proof fn lemma_run_lookup<D, M>(
    g: FuncView,
    m: Meaning<D, M>,
    number: spec_fn(D) -> i32,
    n: NamesView,
    a: D,
    b: D,
    e: Map<ValueId, D>,
    memory: M,
)
    requires
        stands(g, n),
        m.computes_apart_from_memory(),
        computes_integers(m, number),
        is_based(m, n, a, b, e),
    ensures
        ({
            let (r, behind) = looked_up(m, number, n, a, b, memory);
            semantics::steps(g, m, State::Running { block: BlockId(3), env: e, memory }, 3)
                == (State::Returned {
                value: Some(r),
                memory: after_store(m, (m.global)(n.depth), e[v(9)], behind),
            })
        }),
{
    let insts = at(g, 3);
    assert(insts == lookup_insts());
    let s = State::Running { block: BlockId(3), env: e, memory };
    let limit = m.integer(recursive_memoize::SECOND_PARAM_LIMIT);
    assert(semantics::executed(m, insts, 0, e, memory) == (e, memory));
    lemma_binary_one(m, 20, BinaryOp::Imul, v(0), v(19), e, memory);
    let e1 = e.insert(v(20), m.of_two(BinaryOp::Imul, v(0), v(19), a, limit, memory));
    assert(semantics::executed(m, insts, 1, e, memory) == one(m, insts[0], e, memory));
    lemma_binary_one(m, 21, BinaryOp::Iadd, v(20), v(1), e1, memory);
    let i = index_of(m, a, b, memory);
    let e2 = e1.insert(v(21), i);
    assert(semantics::executed(m, insts, 2, e, memory) == one(m, insts[1], e1, memory));
    lemma_element_one(m, 22, v(7), v(2), v(21), e2, memory);
    let tag_slot = element_of(m, (m.global)(n.tags), m.integer(0), i, memory);
    let e3 = e2.insert(v(22), tag_slot);
    assert(semantics::executed(m, insts, 3, e, memory) == one(m, insts[2], e2, memory));
    lemma_element_one(m, 23, v(8), v(2), v(21), e3, memory);
    let value_slot = element_of(m, (m.global)(n.values), m.integer(0), i, memory);
    let e4 = e3.insert(v(23), value_slot);
    assert(semantics::executed(m, insts, 4, e, memory) == one(m, insts[3], e3, memory));
    lemma_load_one(m, 24, v(22), e4, memory);
    let (tag, mem) = loaded(m, tag_slot, memory);
    let e5 = e4.insert(v(24), tag);
    assert(semantics::executed(m, insts, 5, e, memory) == one(m, insts[4], e4, memory));
    lemma_compare_one(m, 25, CompareOp::Ne, v(24), v(2), e5, mem);
    let e6 = e5.insert(v(25), of_compare(m, CompareOp::Ne, v(24), v(2), e5[v(24)], e5[v(2)], mem));
    assert(semantics::executed(m, insts, 6, e, memory) == one(m, insts[5], e5, mem));
    assert((m.truth)(e6[v(25)]) == (number(tag) != 0));
    lemma_arrives::<D, M>(g, n, 3, 4, e6, mem);
    lemma_arrives::<D, M>(g, n, 3, 5, e6, mem);
    semantics::lemma_steps_add(g, m, s, 1, 2);
    semantics::lemma_few_steps(g, m, s);
    if number(tag) != 0 {
        let s1 = State::Running { block: BlockId(4), env: e6, memory: mem };
        assert(semantics::step(g, m, s) == s1);
        lemma_run_hit(g, m, n, a, b, e6, mem);
    } else {
        let s1 = State::Running { block: BlockId(5), env: e6, memory: mem };
        assert(semantics::step(g, m, s) == s1);
        lemma_run_miss(g, m, n, a, b, e6, mem);
    }
}

proof fn lemma_run_hit<D, M>(
    g: FuncView,
    m: Meaning<D, M>,
    n: NamesView,
    a: D,
    b: D,
    e: Map<ValueId, D>,
    memory: M,
)
    requires
        stands(g, n),
        is_based(m, n, a, b, e),
    ensures
        ({
            let (r, behind) = loaded(m, e[v(23)], memory);
            semantics::steps(g, m, State::Running { block: BlockId(4), env: e, memory }, 2)
                == (State::Returned {
                value: Some(r),
                memory: after_store(m, (m.global)(n.depth), e[v(9)], behind),
            })
        }),
{
    let insts = at(g, 4);
    let s = State::Running { block: BlockId(4), env: e, memory };
    let (r, behind) = loaded(m, e[v(23)], memory);
    assert(semantics::executed(m, insts, 0, e, memory) == (e, memory));
    lemma_load_one(m, 26, v(23), e, memory);
    let x = e.insert(v(26), r);
    assert(semantics::executed(m, insts, 1, e, memory) == one(m, insts[0], e, memory));
    semantics::lemma_few_steps(g, m, s);
    lemma_run_finish(g, m, n, a, b, 4, x, behind);
}

proof fn lemma_run_miss<D, M>(
    g: FuncView,
    m: Meaning<D, M>,
    n: NamesView,
    a: D,
    b: D,
    e: Map<ValueId, D>,
    memory: M,
)
    requires
        stands(g, n),
        is_based(m, n, a, b, e),
    ensures
        ({
            let (r, behind) = called(m, n.body, a, b, memory);
            let kept = after_store(m, e[v(22)], m.integer(1), after_store(m, e[v(23)], r, behind));
            semantics::steps(g, m, State::Running { block: BlockId(5), env: e, memory }, 2)
                == (State::Returned {
                value: Some(r),
                memory: after_store(m, (m.global)(n.depth), e[v(9)], kept),
            })
        }),
{
    let insts = at(g, 5);
    let s = State::Running { block: BlockId(5), env: e, memory };
    let (r, behind) = called(m, n.body, a, b, memory);
    let mem1 = after_store(m, e[v(23)], r, behind);
    let mem2 = after_store(m, e[v(22)], m.integer(1), mem1);
    assert(semantics::executed(m, insts, 0, e, memory) == (e, memory));
    lemma_call_one(m, 27, n.body, e, memory);
    let x = e.insert(v(27), r);
    assert(semantics::executed(m, insts, 1, e, memory) == one(m, insts[0], e, memory));
    lemma_store_one(m, v(23), v(27), x, behind);
    assert(semantics::executed(m, insts, 2, e, memory) == one(m, insts[1], x, behind));
    lemma_store_one(m, v(22), v(3), x, mem1);
    assert(semantics::executed(m, insts, 3, e, memory) == one(m, insts[2], x, mem1));
    semantics::lemma_few_steps(g, m, s);
    lemma_run_finish(g, m, n, a, b, 5, x, mem2);
}

/// A call of the wrapper counts the depth, clears the tags if it is the outermost
/// one, looks arguments with a slot up and hands others to the body, calls the
/// body at most once, restores the depth, and returns what it found or what the
/// body returned.
pub proof fn the_wrapper_looks_up_or_calls<D, M>(
    name: Seq<char>,
    n: NamesView,
    m: Meaning<D, M>,
    number: spec_fn(D) -> i32,
    args: Map<ValueId, D>,
    memory: M,
    out: State<D, M>,
)
    requires
        m.computes_apart_from_memory(),
        m.has_booleans(),
        computes_integers(m, number),
    ensures
        ({
            let f = recursive_memoize::wrapper(name, n);
            let (r, behind) = wrapped(
                m,
                number,
                n,
                args[f.params[0]],
                args[f.params[1]],
                memory,
            );
            semantics::yields(f, m, args, memory, out) == (out == (State::<D, M>::Returned {
                value: Some(r),
                memory: behind,
            }))
        }),
{
    let g = recursive_memoize::wrapper(name, n);
    lemma_wrapper(name, n);
    lemma_params(name, n);
    let a = args[v(0)];
    let b = args[v(1)];
    let e = semantics::initial(g, m, args);
    let s0 = semantics::start(g, m, args, memory);
    assert(is_based(m, n, a, b, e));
    let (depth, mem) = loaded(m, (m.global)(n.depth), memory);
    let e1 = lemma_run_entry(g, m, number, n, a, b, e, memory);
    let ready = if number(depth) == 0 {
        cleared(m, (m.global)(n.tags), mem)
    } else {
        mem
    };
    let s1 = State::Running { block: BlockId(2), env: e1, memory: ready };
    semantics::lemma_few_steps(g, m, s0);
    let k: nat = if number(depth) == 0 {
        lemma_run_clear(g, m, n, a, b, e1, mem);
        2
    } else {
        1
    };
    assert(semantics::steps(g, m, s0, k) == s1);
    let e2 = lemma_run_prepare(g, m, number, n, a, b, e1, ready);
    let deeper = m.of_two(BinaryOp::Iadd, v(9), v(3), depth, m.integer(1), ready);
    let inside = after_store(m, (m.global)(n.depth), deeper, ready);
    semantics::lemma_few_steps(g, m, s1);
    let (r, behind) = wrapped(m, number, n, a, b, memory);
    let last = State::<D, M>::Returned { value: Some(r), memory: behind };
    let l: nat = if has_slot(number(a), number(b)) {
        lemma_run_lookup(g, m, number, n, a, b, e2, inside);
        3
    } else {
        lemma_run_uncached(g, m, n, a, b, e2, inside);
        2
    };
    semantics::lemma_steps_add(g, m, s1, 1, l);
    assert(semantics::steps(g, m, s1, 1 + l) == last);
    semantics::lemma_steps_add(g, m, s0, k, 1 + l);
    piecewise_laws::lemma_only_outcome(g, m, args, memory, k + (1 + l), last, out);
}

proof fn lemma_params(name: Seq<char>, n: NamesView)
    ensures
        recursive_memoize::wrapper(name, n).params == seq![v(0), v(1)],
{
    reveal_with_fuel(emit::blocks_named, 9);
    reveal(emit::emitted);
    reveal(emit::effected);
    reveal(emit::ended);
    let s = recursive_memoize::skeleton(name);
    assert(recursive_memoize::block_names().len() == 7);
    assert(s.params == seq![ValueId(0), ValueId(1)]);
    let (f1, w) = recursive_memoize::with_parts(s, n);
    assert(f1.params == s.params);
    let (f2, o) = recursive_memoize::opening_built(f1, w);
    assert(f2.params == f1.params);
    let stride = f2.next_value();
    let f3 = f2.add_const(Const::Int(recursive_memoize::SECOND_PARAM_LIMIT));
    let (f4, l) = recursive_memoize::lookup_built(f3, w, stride);
    assert(f4.params == f3.params);
    assert(recursive_memoize::closing_built(f4, w, o, l, n.body).params == f4.params);
}

} // verus!
