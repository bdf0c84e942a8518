//! The helper that sums a recurrence over the odd numbers up to a limit.
use vstd::prelude::*;

use crate::emit;
use crate::emit::{
    add_named_blocks, emit_binary, emit_boolean, emit_comparison, emit_element, emit_load,
    emit_phi, emit_store, end_branch, end_jump, end_return, set_phi,
};
use crate::ir::{
    BinaryOp, BlockId, BlockView, CompareOp, Const, FuncView, Function, Terminator, Type, ValueId,
    ValueKindView, ValueView,
};
use crate::pass::odd_chain_group::recognize;
use crate::pass::odd_chain_group::recognize::RecurrenceKind;
use crate::util;
use crate::util::get_or_add_i32_const;

verus! {

/// States up to this one are looked up in the cache.
pub const CACHE_STATE_LIMIT: i32 = 20000000;

/// The cache holds the odd states up to the limit.
pub const CACHE_ENTRIES: usize = 10000001;

/// A bound of the number of multiples of an odd number within the safe limit.
pub const MAX_COPIES: i32 = 31;

/// `0 + 1 + ... + (MAX_COPIES - 1)`.
pub const MAX_TRIANGLE: i32 = 465;

/// The entry block.
pub const ENTRY: usize = 0;

pub const OUTER: usize = 1;

pub const OUTCOME: usize = 2;

pub const SUCCESS: usize = 3;

pub const PARITY: usize = 4;

pub const EVEN: usize = 5;

pub const CACHE_BOUND: usize = 6;

pub const CACHE_LOOKUP: usize = 7;

pub const CACHE_SUCCESS: usize = 8;

pub const CACHE_FAILURE: usize = 9;

pub const ODD_THREE: usize = 10;

pub const ODD_FOUR: usize = 11;

pub const FAILURE: usize = 12;

pub const OUTCOME_DONE: usize = 13;

pub const CACHE_STORE_DECIDE: usize = 14;

pub const CACHE_STORE_SELECT: usize = 15;

pub const CACHE_STORE_SUCCESS: usize = 16;

pub const CACHE_STORE_FAILURE: usize = 17;

pub const CACHE_STORE_DONE: usize = 18;

pub const COPIES: usize = 19;

pub const COPIES_BODY: usize = 20;

pub const COPIES_DONE: usize = 21;

pub const FAILED_VALUE: usize = 22;

pub const SUCCESSFUL_VALUE: usize = 23;

pub const VALUE_DONE: usize = 24;

pub const AGGREGATE: usize = 25;

pub const ADD_LOOP: usize = 26;

pub const ADD_BODY: usize = 27;

pub const OUTER_LATCH: usize = 28;

pub const EXIT: usize = 29;

/// The number of blocks.
pub const BLOCKS: usize = 30;

/// The names of the blocks behind the entry.
pub open spec fn block_names() -> Seq<Seq<char>> {
    seq![
        "group.outer"@,
        "group.outcome"@,
        "group.success"@,
        "group.parity"@,
        "group.even"@,
        "group.cache.bound"@,
        "group.cache.lookup"@,
        "group.cache.success"@,
        "group.cache.failure"@,
        "group.odd3"@,
        "group.odd4"@,
        "group.failure"@,
        "group.outcome.done"@,
        "group.cache.store.decide"@,
        "group.cache.store.select"@,
        "group.cache.store.success"@,
        "group.cache.store.failure"@,
        "group.cache.store.done"@,
        "group.copies"@,
        "group.copies.body"@,
        "group.copies.done"@,
        "group.value.failed"@,
        "group.value.success"@,
        "group.value.done"@,
        "group.add.aggregate"@,
        "group.add"@,
        "group.add.body"@,
        "group.outer.latch"@,
        "group.exit"@,
    ]
}

/// The type of the cache.
pub open spec fn cache_ty() -> Type {
    Type::Array { elem: Box::new(Type::I32), len: CACHE_ENTRIES }
}

pub fn cache_type() -> (r: Type)
    ensures
        r == cache_ty(),
{
    Type::Array { elem: Box::new(Type::I32), len: CACHE_ENTRIES }
}

/// The largest value of an odd number for which the sum over its multiples
/// cannot overflow.
pub open spec fn safe_base(modulus: int) -> int {
    let room = i32::MAX - (modulus - 1) - MAX_TRIANGLE;
    if room < 0 {
        -(-room / MAX_COPIES as int)
    } else {
        room / MAX_COPIES as int
    }
}

#[derive(Clone, Copy, PartialEq, Eq, Structural)]
pub struct Constants {
    pub limit: ValueId,
    pub zero: ValueId,
    pub one: ValueId,
    pub two: ValueId,
    pub three: ValueId,
    pub four: ValueId,
    pub failure_value: ValueId,
    pub minus_one: ValueId,
    pub modulus: ValueId,
    pub safe_base: ValueId,
    pub cache_state_limit: ValueId,
    pub cache_ptr: ValueId,
}

/// The function with a constant, and the value that is the constant.
#[verifier::opaque]
pub open spec fn constant(f: FuncView, c: int) -> (FuncView, ValueId) {
    (util::with_const(f, Const::Int(c as i32)), util::const_value(f, Const::Int(c as i32)))
}

fn add_constant(func: &mut Function, c: i32) -> (r: ValueId)
    ensures
        (final(func)@, r) == constant(old(func)@, c as int),
        final(func)@.blocks == old(func)@.blocks,
{
    proof {
        reveal(constant);
    }
    get_or_add_i32_const(func, c)
}

/// The function without instructions: its parameter and its blocks.
pub open spec fn skeleton(name: Seq<char>) -> FuncView {
    let f = FuncView {
        name,
        params: seq![ValueId(0)],
        ret: Type::I32,
        entry: BlockId(0),
        blocks: seq![BlockView { name: "entry"@, insts: Seq::empty(), terminator: None }],
        values: seq![
            ValueView { name: Some("limit"@), ty: Type::I32, kind: ValueKindView::Param },
        ],
        recursive_cfg_inline_decided: false,
        reduction_jammed: false,
    };
    emit::blocks_named(f, block_names(), 0)
}

fn build_skeleton(name: &str) -> (r: Function)
    ensures
        r@ == skeleton(name@),
        r@.blocks.len() == BLOCKS,
{
    let mut func = Function::new(name, Type::I32);
    let limit = func.add_param("limit", Type::I32);
    assert(func@.params =~= seq![ValueId(0)]);
    assert(func@.values =~= seq![
        ValueView { name: Some("limit"@), ty: Type::I32, kind: ValueKindView::Param },
    ]);
    let names = vec![
        "group.outer",
        "group.outcome",
        "group.success",
        "group.parity",
        "group.even",
        "group.cache.bound",
        "group.cache.lookup",
        "group.cache.success",
        "group.cache.failure",
        "group.odd3",
        "group.odd4",
        "group.failure",
        "group.outcome.done",
        "group.cache.store.decide",
        "group.cache.store.select",
        "group.cache.store.success",
        "group.cache.store.failure",
        "group.cache.store.done",
        "group.copies",
        "group.copies.body",
        "group.copies.done",
        "group.value.failed",
        "group.value.success",
        "group.value.done",
        "group.add.aggregate",
        "group.add",
        "group.add.body",
        "group.outer.latch",
        "group.exit",
    ];
    assert(emit::texts(names@) =~= block_names());
    add_named_blocks(&mut func, &names);
    func
}

/// The small constants.
pub open spec fn small_constants(f: FuncView, kind: RecurrenceKind) -> (FuncView, Constants) {
    let limit = ValueId(0);
    let (f1, zero) = constant(f, 0);
    let (f2, one) = constant(f1, 1);
    let (f3, two) = constant(f2, 2);
    let (f4, three) = constant(f3, 3);
    let (f5, four) = constant(f4, 4);
    let (f6, failure_value) = constant(f5, recognize::failure_of(kind) as int);
    let (f7, minus_one) = constant(f6, -1);
    (
        f7,
        Constants {
            limit,
            zero,
            one,
            two,
            three,
            four,
            failure_value,
            minus_one,
            modulus: limit,
            safe_base: limit,
            cache_state_limit: limit,
            cache_ptr: limit,
        },
    )
}

fn add_small_constants(func: &mut Function, kind: RecurrenceKind) -> (r: Constants)
    ensures
        (final(func)@, r) == small_constants(old(func)@, kind),
        final(func)@.blocks == old(func)@.blocks,
{
    let limit = ValueId(0);
    let zero = add_constant(func, 0);
    let one = add_constant(func, 1);
    let two = add_constant(func, 2);
    let three = add_constant(func, 3);
    let four = add_constant(func, 4);
    let failure_value = add_constant(func, kind.failure_value());
    let minus_one = add_constant(func, -1);
    Constants {
        limit,
        zero,
        one,
        two,
        three,
        four,
        failure_value,
        minus_one,
        modulus: limit,
        safe_base: limit,
        cache_state_limit: limit,
        cache_ptr: limit,
    }
}

/// The constants that depend on the modulus, and the cache.
pub open spec fn large_constants(f: FuncView, k: Constants, modulus_value: i32, cache: Seq<char>) -> (
    FuncView,
    Constants,
) {
    let (f1, modulus) = constant(f, modulus_value as int);
    let (f2, base) = constant(f1, safe_base(modulus_value as int));
    let (f3, cache_state_limit) = constant(f2, CACHE_STATE_LIMIT as int);
    (
        f3.add_global_ref(cache, Type::Ptr(Box::new(cache_ty()))),
        Constants { modulus, safe_base: base, cache_state_limit, cache_ptr: f3.next_value(), ..k },
    )
}

fn add_large_constants(func: &mut Function, k: Constants, modulus_value: i32, cache: &str) -> (r:
    Constants)
    requires
        modulus_value > 0,
    ensures
        (final(func)@, r) == large_constants(old(func)@, k, modulus_value, cache@),
        final(func)@.blocks == old(func)@.blocks,
{
    let modulus = add_constant(func, modulus_value);
    let room: i32 = i32::MAX - (modulus_value - 1) - MAX_TRIANGLE;
    let bound: i32 = if room < 0 {
        -(-room / MAX_COPIES)
    } else {
        room / MAX_COPIES
    };
    let base = add_constant(func, bound);
    let cache_state_limit = add_constant(func, CACHE_STATE_LIMIT);
    let ty = Type::Ptr(Box::new(cache_type()));
    let cache_ptr = func.add_global_ref(cache, ty);
    Constants { modulus, safe_base: base, cache_state_limit, cache_ptr, ..k }
}

#[derive(Clone, Copy, PartialEq, Eq, Structural)]
pub struct Search {
    pub half: ValueId,
    pub odd: ValueId,
    pub answer: ValueId,
    pub state: ValueId,
    pub depth: ValueId,
    pub half_state: ValueId,
    pub even_depth: ValueId,
}

/// The odd numbers, the chain of one of them, and its even steps.
#[verifier::opaque]
pub open spec fn search_built(f: FuncView, k: Constants) -> (FuncView, Search) {
    let half = f.next_value();
    let g1 = emit::emitted(f, ENTRY, emit::binary(BinaryOp::Idiv, k.limit, k.two), Type::I32);
    let g2 = emit::ended(g1, ENTRY, Terminator::Jump(BlockId(OUTER)));
    let odd = g2.next_value();
    let g3 = emit::emitted(g2, OUTER, emit::phi(Seq::empty()), Type::I32);
    let answer = g3.next_value();
    let g4 = emit::emitted(g3, OUTER, emit::phi(Seq::empty()), Type::I32);
    let in_range = g4.next_value();
    let g5 = emit::emitted(g4, OUTER, emit::comparison(CompareOp::Le, odd, k.limit), Type::I1);
    let g6 = emit::ended(g5, OUTER, emit::branch(in_range, OUTCOME, EXIT));
    let state = g6.next_value();
    let g7 = emit::emitted(g6, OUTCOME, emit::phi(Seq::empty()), Type::I32);
    let depth = g7.next_value();
    let g8 = emit::emitted(g7, OUTCOME, emit::phi(Seq::empty()), Type::I32);
    let finished = g8.next_value();
    let g9 = emit::emitted(g8, OUTCOME, emit::comparison(CompareOp::Eq, state, k.one), Type::I1);
    let g10 = emit::ended(g9, OUTCOME, emit::branch(finished, SUCCESS, PARITY));
    let g11 = emit::ended(g10, SUCCESS, Terminator::Jump(BlockId(OUTCOME_DONE)));
    let masked = g11.next_value();
    let g12 = emit::emitted(g11, PARITY, emit::binary(BinaryOp::Iand, state, k.one), Type::I32);
    let is_even = g12.next_value();
    let g13 = emit::emitted(g12, PARITY, emit::comparison(CompareOp::Eq, masked, k.zero), Type::I1);
    let g14 = emit::ended(g13, PARITY, emit::branch(is_even, EVEN, CACHE_BOUND));
    let half_state = g14.next_value();
    let g15 = emit::emitted(g14, EVEN, emit::binary(BinaryOp::Idiv, state, k.two), Type::I32);
    let even_depth = g15.next_value();
    let g16 = emit::emitted(g15, EVEN, emit::binary(BinaryOp::Iadd, depth, k.one), Type::I32);
    let g17 = emit::ended(g16, EVEN, Terminator::Jump(BlockId(OUTCOME)));
    (g17, Search { half, odd, answer, state, depth, half_state, even_depth })
}

fn build_search(func: &mut Function, k: Constants) -> (r: Search)
    requires
        old(func)@.blocks.len() == BLOCKS,
    ensures
        (final(func)@, r) == search_built(old(func)@, k),
        final(func)@.blocks.len() == BLOCKS,
{
    proof {
        reveal(search_built);
    }
    let half = emit_binary(func, ENTRY, BinaryOp::Idiv, k.limit, k.two);
    end_jump(func, ENTRY, OUTER);
    let odd = emit_phi(func, OUTER, Vec::new());
    let answer = emit_phi(func, OUTER, Vec::new());
    let in_range = emit_comparison(func, OUTER, CompareOp::Le, odd, k.limit);
    end_branch(func, OUTER, in_range, OUTCOME, EXIT);
    let state = emit_phi(func, OUTCOME, Vec::new());
    let depth = emit_phi(func, OUTCOME, Vec::new());
    let finished = emit_comparison(func, OUTCOME, CompareOp::Eq, state, k.one);
    end_branch(func, OUTCOME, finished, SUCCESS, PARITY);
    end_jump(func, SUCCESS, OUTCOME_DONE);
    let masked = emit_binary(func, PARITY, BinaryOp::Iand, state, k.one);
    let is_even = emit_comparison(func, PARITY, CompareOp::Eq, masked, k.zero);
    end_branch(func, PARITY, is_even, EVEN, CACHE_BOUND);
    let half_state = emit_binary(func, EVEN, BinaryOp::Idiv, state, k.two);
    let even_depth = emit_binary(func, EVEN, BinaryOp::Iadd, depth, k.one);
    end_jump(func, EVEN, OUTCOME);
    Search { half, odd, answer, state, depth, half_state, even_depth }
}

#[derive(Clone, Copy, PartialEq, Eq, Structural)]
pub struct Lookup {
    pub cached_outcome: ValueId,
}

/// The lookup of a smaller odd state whose outcome is known.
#[verifier::opaque]
pub open spec fn lookup_built(f: FuncView, k: Constants, s: Search) -> (FuncView, Lookup) {
    let is_smaller = f.next_value();
    let g1 = emit::emitted(f, CACHE_BOUND, emit::comparison(CompareOp::Lt, s.state, s.odd), Type::I1);
    let is_cached_range = g1.next_value();
    let g2 = emit::emitted(g1, CACHE_BOUND, emit::comparison(CompareOp::Le, s.state, k.cache_state_limit), Type::I1);
    let can_lookup = g2.next_value();
    let g3 = emit::emitted(g2, CACHE_BOUND, emit::binary(BinaryOp::And, is_smaller, is_cached_range), Type::I1);
    let g4 = emit::ended(g3, CACHE_BOUND, emit::branch(can_lookup, CACHE_LOOKUP, ODD_THREE));
    let cached_index = g4.next_value();
    let g5 = emit::emitted(g4, CACHE_LOOKUP, emit::binary(BinaryOp::Idiv, s.state, k.two), Type::I32);
    let cached_slot = g5.next_value();
    let g6 = emit::emitted(g5, CACHE_LOOKUP, emit::element(k.cache_ptr, k.zero, cached_index), Type::Ptr(Box::new(Type::I32)));
    let cached = g6.next_value();
    let g7 = emit::emitted(g6, CACHE_LOOKUP, emit::load(cached_slot), Type::I32);
    let cached_failed = g7.next_value();
    let g8 = emit::emitted(g7, CACHE_LOOKUP, emit::comparison(CompareOp::Lt, cached, k.zero), Type::I1);
    let g9 = emit::ended(g8, CACHE_LOOKUP, emit::branch(cached_failed, CACHE_FAILURE, CACHE_SUCCESS));
    let decoded_cache = g9.next_value();
    let g10 = emit::emitted(g9, CACHE_SUCCESS, emit::binary(BinaryOp::Isub, cached, k.one), Type::I32);
    let cached_outcome = g10.next_value();
    let g11 = emit::emitted(g10, CACHE_SUCCESS, emit::binary(BinaryOp::Iadd, s.depth, decoded_cache), Type::I32);
    let g12 = emit::ended(g11, CACHE_SUCCESS, Terminator::Jump(BlockId(OUTCOME_DONE)));
    let g13 = emit::ended(g12, CACHE_FAILURE, Terminator::Jump(BlockId(OUTCOME_DONE)));
    (g13, Lookup { cached_outcome })
}

fn build_lookup(func: &mut Function, k: Constants, s: Search) -> (r: Lookup)
    requires
        old(func)@.blocks.len() == BLOCKS,
    ensures
        (final(func)@, r) == lookup_built(old(func)@, k, s),
        final(func)@.blocks.len() == BLOCKS,
{
    proof {
        reveal(lookup_built);
    }
    let is_smaller = emit_comparison(func, CACHE_BOUND, CompareOp::Lt, s.state, s.odd);
    let is_cached_range = emit_comparison(func, CACHE_BOUND, CompareOp::Le, s.state, k.cache_state_limit);
    let can_lookup = emit_boolean(func, CACHE_BOUND, BinaryOp::And, is_smaller, is_cached_range);
    end_branch(func, CACHE_BOUND, can_lookup, CACHE_LOOKUP, ODD_THREE);
    let cached_index = emit_binary(func, CACHE_LOOKUP, BinaryOp::Idiv, s.state, k.two);
    let cached_slot = emit_element(func, CACHE_LOOKUP, k.cache_ptr, k.zero, cached_index);
    let cached = emit_load(func, CACHE_LOOKUP, cached_slot);
    let cached_failed = emit_comparison(func, CACHE_LOOKUP, CompareOp::Lt, cached, k.zero);
    end_branch(func, CACHE_LOOKUP, cached_failed, CACHE_FAILURE, CACHE_SUCCESS);
    let decoded_cache = emit_binary(func, CACHE_SUCCESS, BinaryOp::Isub, cached, k.one);
    let cached_outcome = emit_binary(func, CACHE_SUCCESS, BinaryOp::Iadd, s.depth, decoded_cache);
    end_jump(func, CACHE_SUCCESS, OUTCOME_DONE);
    end_jump(func, CACHE_FAILURE, OUTCOME_DONE);
    Lookup { cached_outcome }
}

#[derive(Clone, Copy, PartialEq, Eq, Structural)]
pub struct Three {
    pub next_three: ValueId,
    pub three_depth: ValueId,
}

/// The step from an odd state to three times the state plus one; `next` is tried when it does not fit.
#[verifier::opaque]
pub open spec fn three_built(f: FuncView, k: Constants, s: Search, next: usize) -> (FuncView, Three) {
    let tripled = f.next_value();
    let g1 = emit::emitted(f, ODD_THREE, emit::binary(BinaryOp::Imul, s.state, k.three), Type::I32);
    let next_three = g1.next_value();
    let g2 = emit::emitted(g1, ODD_THREE, emit::binary(BinaryOp::Iadd, tripled, k.one), Type::I32);
    let three_depth = g2.next_value();
    let g3 = emit::emitted(g2, ODD_THREE, emit::binary(BinaryOp::Iadd, s.depth, k.one), Type::I32);
    let three_fits = g3.next_value();
    let g4 = emit::emitted(g3, ODD_THREE, emit::comparison(CompareOp::Le, next_three, k.limit), Type::I1);
    let g5 = emit::ended(g4, ODD_THREE, emit::branch(three_fits, OUTCOME, next));
    (g5, Three { next_three, three_depth })
}

fn build_three(func: &mut Function, k: Constants, s: Search, next: usize) -> (r: Three)
    requires
        old(func)@.blocks.len() == BLOCKS,
    ensures
        (final(func)@, r) == three_built(old(func)@, k, s, next),
        final(func)@.blocks.len() == BLOCKS,
{
    proof {
        reveal(three_built);
    }
    let tripled = emit_binary(func, ODD_THREE, BinaryOp::Imul, s.state, k.three);
    let next_three = emit_binary(func, ODD_THREE, BinaryOp::Iadd, tripled, k.one);
    let three_depth = emit_binary(func, ODD_THREE, BinaryOp::Iadd, s.depth, k.one);
    let three_fits = emit_comparison(func, ODD_THREE, CompareOp::Le, next_three, k.limit);
    end_branch(func, ODD_THREE, three_fits, OUTCOME, next);
    Three { next_three, three_depth }
}

#[derive(Clone, Copy, PartialEq, Eq, Structural)]
pub struct Four {
    pub next_four: ValueId,
    pub four_depth: ValueId,
}

/// The step from an odd state to four times the state plus one.
#[verifier::opaque]
pub open spec fn four_built(f: FuncView, k: Constants, s: Search) -> (FuncView, Four) {
    let quadrupled = f.next_value();
    let g1 = emit::emitted(f, ODD_FOUR, emit::binary(BinaryOp::Imul, s.state, k.four), Type::I32);
    let next_four = g1.next_value();
    let g2 = emit::emitted(g1, ODD_FOUR, emit::binary(BinaryOp::Iadd, quadrupled, k.one), Type::I32);
    let four_depth = g2.next_value();
    let g3 = emit::emitted(g2, ODD_FOUR, emit::binary(BinaryOp::Iadd, s.depth, k.one), Type::I32);
    let four_fits = g3.next_value();
    let g4 = emit::emitted(g3, ODD_FOUR, emit::comparison(CompareOp::Le, next_four, k.limit), Type::I1);
    let g5 = emit::ended(g4, ODD_FOUR, emit::branch(four_fits, OUTCOME, FAILURE));
    (g5, Four { next_four, four_depth })
}

fn build_four(func: &mut Function, k: Constants, s: Search) -> (r: Four)
    requires
        old(func)@.blocks.len() == BLOCKS,
    ensures
        (final(func)@, r) == four_built(old(func)@, k, s),
        final(func)@.blocks.len() == BLOCKS,
{
    proof {
        reveal(four_built);
    }
    let quadrupled = emit_binary(func, ODD_FOUR, BinaryOp::Imul, s.state, k.four);
    let next_four = emit_binary(func, ODD_FOUR, BinaryOp::Iadd, quadrupled, k.one);
    let four_depth = emit_binary(func, ODD_FOUR, BinaryOp::Iadd, s.depth, k.one);
    let four_fits = emit_comparison(func, ODD_FOUR, CompareOp::Le, next_four, k.limit);
    end_branch(func, ODD_FOUR, four_fits, OUTCOME, FAILURE);
    Four { next_four, four_depth }
}

#[derive(Clone, Copy, PartialEq, Eq, Structural)]
pub struct Outcome {
    pub outcome_value: ValueId,
}

/// The outcome of the chain, minus one when it failed, and its entry in the cache.
#[verifier::opaque]
pub open spec fn outcome_built(f: FuncView, k: Constants, s: Search, l: Lookup) -> (FuncView, Outcome) {
    let g1 = emit::ended(f, FAILURE, Terminator::Jump(BlockId(OUTCOME_DONE)));
    let outcome_value = g1.next_value();
    let g2 = emit::emitted(g1, OUTCOME_DONE, emit::phi(seq![(BlockId(SUCCESS), s.depth), (BlockId(FAILURE), k.minus_one), (BlockId(CACHE_SUCCESS), l.cached_outcome), (BlockId(CACHE_FAILURE), k.minus_one)]), Type::I32);
    let g3 = emit::ended(g2, OUTCOME_DONE, Terminator::Jump(BlockId(CACHE_STORE_DECIDE)));
    let store_in_range = g3.next_value();
    let g4 = emit::emitted(g3, CACHE_STORE_DECIDE, emit::comparison(CompareOp::Le, s.odd, k.cache_state_limit), Type::I1);
    let g5 = emit::ended(g4, CACHE_STORE_DECIDE, emit::branch(store_in_range, CACHE_STORE_SELECT, CACHE_STORE_DONE));
    let store_index = g5.next_value();
    let g6 = emit::emitted(g5, CACHE_STORE_SELECT, emit::binary(BinaryOp::Idiv, s.odd, k.two), Type::I32);
    let store_slot = g6.next_value();
    let g7 = emit::emitted(g6, CACHE_STORE_SELECT, emit::element(k.cache_ptr, k.zero, store_index), Type::Ptr(Box::new(Type::I32)));
    let store_failed = g7.next_value();
    let g8 = emit::emitted(g7, CACHE_STORE_SELECT, emit::comparison(CompareOp::Lt, outcome_value, k.zero), Type::I1);
    let g9 = emit::ended(g8, CACHE_STORE_SELECT, emit::branch(store_failed, CACHE_STORE_FAILURE, CACHE_STORE_SUCCESS));
    let g10 = emit::effected(g9, CACHE_STORE_FAILURE, emit::store(store_slot, k.minus_one));
    let g11 = emit::ended(g10, CACHE_STORE_FAILURE, Terminator::Jump(BlockId(CACHE_STORE_DONE)));
    let encoded_outcome = g11.next_value();
    let g12 = emit::emitted(g11, CACHE_STORE_SUCCESS, emit::binary(BinaryOp::Iadd, outcome_value, k.one), Type::I32);
    let g13 = emit::effected(g12, CACHE_STORE_SUCCESS, emit::store(store_slot, encoded_outcome));
    let g14 = emit::ended(g13, CACHE_STORE_SUCCESS, Terminator::Jump(BlockId(CACHE_STORE_DONE)));
    let g15 = emit::ended(g14, CACHE_STORE_DONE, Terminator::Jump(BlockId(COPIES)));
    (g15, Outcome { outcome_value })
}

fn build_outcome(func: &mut Function, k: Constants, s: Search, l: Lookup) -> (r: Outcome)
    requires
        old(func)@.blocks.len() == BLOCKS,
    ensures
        (final(func)@, r) == outcome_built(old(func)@, k, s, l),
        final(func)@.blocks.len() == BLOCKS,
{
    proof {
        reveal(outcome_built);
    }
    end_jump(func, FAILURE, OUTCOME_DONE);
    let entries = vec![(BlockId(SUCCESS), s.depth), (BlockId(FAILURE), k.minus_one), (BlockId(CACHE_SUCCESS), l.cached_outcome), (BlockId(CACHE_FAILURE), k.minus_one)];
    assert(entries@ =~= seq![(BlockId(SUCCESS), s.depth), (BlockId(FAILURE), k.minus_one), (BlockId(CACHE_SUCCESS), l.cached_outcome), (BlockId(CACHE_FAILURE), k.minus_one)]);
    let outcome_value = emit_phi(func, OUTCOME_DONE, entries);
    end_jump(func, OUTCOME_DONE, CACHE_STORE_DECIDE);
    let store_in_range = emit_comparison(func, CACHE_STORE_DECIDE, CompareOp::Le, s.odd, k.cache_state_limit);
    end_branch(func, CACHE_STORE_DECIDE, store_in_range, CACHE_STORE_SELECT, CACHE_STORE_DONE);
    let store_index = emit_binary(func, CACHE_STORE_SELECT, BinaryOp::Idiv, s.odd, k.two);
    let store_slot = emit_element(func, CACHE_STORE_SELECT, k.cache_ptr, k.zero, store_index);
    let store_failed = emit_comparison(func, CACHE_STORE_SELECT, CompareOp::Lt, outcome_value, k.zero);
    end_branch(func, CACHE_STORE_SELECT, store_failed, CACHE_STORE_FAILURE, CACHE_STORE_SUCCESS);
    emit_store(func, CACHE_STORE_FAILURE, store_slot, k.minus_one);
    end_jump(func, CACHE_STORE_FAILURE, CACHE_STORE_DONE);
    let encoded_outcome = emit_binary(func, CACHE_STORE_SUCCESS, BinaryOp::Iadd, outcome_value, k.one);
    emit_store(func, CACHE_STORE_SUCCESS, store_slot, encoded_outcome);
    end_jump(func, CACHE_STORE_SUCCESS, CACHE_STORE_DONE);
    end_jump(func, CACHE_STORE_DONE, COPIES);
    Outcome { outcome_value }
}

#[derive(Clone, Copy, PartialEq, Eq, Structural)]
pub struct Copies {
    pub scaled: ValueId,
    pub copy_count: ValueId,
    pub doubled: ValueId,
    pub next_copy_count: ValueId,
    pub base: ValueId,
    pub increment: ValueId,
}

/// The number of multiples of the odd number by powers of two, and the value of the odd number itself.
#[verifier::opaque]
pub open spec fn copies_built(f: FuncView, k: Constants, s: Search, o: Outcome) -> (FuncView, Copies) {
    let scaled = f.next_value();
    let g1 = emit::emitted(f, COPIES, emit::phi(Seq::empty()), Type::I32);
    let copy_count = g1.next_value();
    let g2 = emit::emitted(g1, COPIES, emit::phi(Seq::empty()), Type::I32);
    let has_more_copies = g2.next_value();
    let g3 = emit::emitted(g2, COPIES, emit::comparison(CompareOp::Le, scaled, s.half), Type::I1);
    let g4 = emit::ended(g3, COPIES, emit::branch(has_more_copies, COPIES_BODY, COPIES_DONE));
    let doubled = g4.next_value();
    let g5 = emit::emitted(g4, COPIES_BODY, emit::binary(BinaryOp::Imul, scaled, k.two), Type::I32);
    let next_copy_count = g5.next_value();
    let g6 = emit::emitted(g5, COPIES_BODY, emit::binary(BinaryOp::Iadd, copy_count, k.one), Type::I32);
    let g7 = emit::ended(g6, COPIES_BODY, Terminator::Jump(BlockId(COPIES)));
    let did_fail = g7.next_value();
    let g8 = emit::emitted(g7, COPIES_DONE, emit::comparison(CompareOp::Lt, o.outcome_value, k.zero), Type::I1);
    let g9 = emit::ended(g8, COPIES_DONE, emit::branch(did_fail, FAILED_VALUE, SUCCESSFUL_VALUE));
    let g10 = emit::ended(g9, FAILED_VALUE, Terminator::Jump(BlockId(VALUE_DONE)));
    let g11 = emit::ended(g10, SUCCESSFUL_VALUE, Terminator::Jump(BlockId(VALUE_DONE)));
    let base = g11.next_value();
    let g12 = emit::emitted(g11, VALUE_DONE, emit::phi(seq![(BlockId(FAILED_VALUE), k.failure_value), (BlockId(SUCCESSFUL_VALUE), o.outcome_value)]), Type::I32);
    let increment = g12.next_value();
    let g13 = emit::emitted(g12, VALUE_DONE, emit::phi(seq![(BlockId(FAILED_VALUE), k.zero), (BlockId(SUCCESSFUL_VALUE), k.one)]), Type::I32);
    let base_is_safe = g13.next_value();
    let g14 = emit::emitted(g13, VALUE_DONE, emit::comparison(CompareOp::Le, base, k.safe_base), Type::I1);
    let g15 = emit::ended(g14, VALUE_DONE, emit::branch(base_is_safe, AGGREGATE, ADD_LOOP));
    (g15, Copies { scaled, copy_count, doubled, next_copy_count, base, increment })
}

fn build_copies(func: &mut Function, k: Constants, s: Search, o: Outcome) -> (r: Copies)
    requires
        old(func)@.blocks.len() == BLOCKS,
    ensures
        (final(func)@, r) == copies_built(old(func)@, k, s, o),
        final(func)@.blocks.len() == BLOCKS,
{
    proof {
        reveal(copies_built);
    }
    let scaled = emit_phi(func, COPIES, Vec::new());
    let copy_count = emit_phi(func, COPIES, Vec::new());
    let has_more_copies = emit_comparison(func, COPIES, CompareOp::Le, scaled, s.half);
    end_branch(func, COPIES, has_more_copies, COPIES_BODY, COPIES_DONE);
    let doubled = emit_binary(func, COPIES_BODY, BinaryOp::Imul, scaled, k.two);
    let next_copy_count = emit_binary(func, COPIES_BODY, BinaryOp::Iadd, copy_count, k.one);
    end_jump(func, COPIES_BODY, COPIES);
    let did_fail = emit_comparison(func, COPIES_DONE, CompareOp::Lt, o.outcome_value, k.zero);
    end_branch(func, COPIES_DONE, did_fail, FAILED_VALUE, SUCCESSFUL_VALUE);
    end_jump(func, FAILED_VALUE, VALUE_DONE);
    end_jump(func, SUCCESSFUL_VALUE, VALUE_DONE);
    let entries = vec![(BlockId(FAILED_VALUE), k.failure_value), (BlockId(SUCCESSFUL_VALUE), o.outcome_value)];
    assert(entries@ =~= seq![(BlockId(FAILED_VALUE), k.failure_value), (BlockId(SUCCESSFUL_VALUE), o.outcome_value)]);
    let base = emit_phi(func, VALUE_DONE, entries);
    let entries = vec![(BlockId(FAILED_VALUE), k.zero), (BlockId(SUCCESSFUL_VALUE), k.one)];
    assert(entries@ =~= seq![(BlockId(FAILED_VALUE), k.zero), (BlockId(SUCCESSFUL_VALUE), k.one)]);
    let increment = emit_phi(func, VALUE_DONE, entries);
    let base_is_safe = emit_comparison(func, VALUE_DONE, CompareOp::Le, base, k.safe_base);
    end_branch(func, VALUE_DONE, base_is_safe, AGGREGATE, ADD_LOOP);
    Copies { scaled, copy_count, doubled, next_copy_count, base, increment }
}

#[derive(Clone, Copy, PartialEq, Eq, Structural)]
pub struct Aggregate {
    pub group_reduced: ValueId,
}

/// The sum over the multiples at once.
#[verifier::opaque]
pub open spec fn aggregate_built(f: FuncView, k: Constants, s: Search, c: Copies) -> (FuncView, Aggregate) {
    let copies_minus_one = f.next_value();
    let g1 = emit::emitted(f, AGGREGATE, emit::binary(BinaryOp::Isub, c.copy_count, k.one), Type::I32);
    let triangle_product = g1.next_value();
    let g2 = emit::emitted(g1, AGGREGATE, emit::binary(BinaryOp::Imul, c.copy_count, copies_minus_one), Type::I32);
    let triangle = g2.next_value();
    let g3 = emit::emitted(g2, AGGREGATE, emit::binary(BinaryOp::Idiv, triangle_product, k.two), Type::I32);
    let repeated_base = g3.next_value();
    let g4 = emit::emitted(g3, AGGREGATE, emit::binary(BinaryOp::Imul, c.base, c.copy_count), Type::I32);
    let increasing = g4.next_value();
    let g5 = emit::emitted(g4, AGGREGATE, emit::binary(BinaryOp::Imul, triangle, c.increment), Type::I32);
    let group_sum = g5.next_value();
    let g6 = emit::emitted(g5, AGGREGATE, emit::binary(BinaryOp::Iadd, repeated_base, increasing), Type::I32);
    let group_added = g6.next_value();
    let g7 = emit::emitted(g6, AGGREGATE, emit::binary(BinaryOp::Iadd, s.answer, group_sum), Type::I32);
    let group_reduced = g7.next_value();
    let g8 = emit::emitted(g7, AGGREGATE, emit::binary(BinaryOp::Imod, group_added, k.modulus), Type::I32);
    let g9 = emit::ended(g8, AGGREGATE, Terminator::Jump(BlockId(OUTER_LATCH)));
    (g9, Aggregate { group_reduced })
}

fn build_aggregate(func: &mut Function, k: Constants, s: Search, c: Copies) -> (r: Aggregate)
    requires
        old(func)@.blocks.len() == BLOCKS,
    ensures
        (final(func)@, r) == aggregate_built(old(func)@, k, s, c),
        final(func)@.blocks.len() == BLOCKS,
{
    proof {
        reveal(aggregate_built);
    }
    let copies_minus_one = emit_binary(func, AGGREGATE, BinaryOp::Isub, c.copy_count, k.one);
    let triangle_product = emit_binary(func, AGGREGATE, BinaryOp::Imul, c.copy_count, copies_minus_one);
    let triangle = emit_binary(func, AGGREGATE, BinaryOp::Idiv, triangle_product, k.two);
    let repeated_base = emit_binary(func, AGGREGATE, BinaryOp::Imul, c.base, c.copy_count);
    let increasing = emit_binary(func, AGGREGATE, BinaryOp::Imul, triangle, c.increment);
    let group_sum = emit_binary(func, AGGREGATE, BinaryOp::Iadd, repeated_base, increasing);
    let group_added = emit_binary(func, AGGREGATE, BinaryOp::Iadd, s.answer, group_sum);
    let group_reduced = emit_binary(func, AGGREGATE, BinaryOp::Imod, group_added, k.modulus);
    end_jump(func, AGGREGATE, OUTER_LATCH);
    Aggregate { group_reduced }
}

#[derive(Clone, Copy, PartialEq, Eq, Structural)]
pub struct Adding {
    pub add_index: ValueId,
    pub running: ValueId,
    pub reduced: ValueId,
    pub next_add_index: ValueId,
    pub next_answer: ValueId,
    pub next_odd: ValueId,
}

/// The sum over the multiples one by one, and the step to the next odd number.
#[verifier::opaque]
pub open spec fn adding_built(f: FuncView, k: Constants, s: Search, c: Copies) -> (FuncView, Adding) {
    let add_index = f.next_value();
    let g1 = emit::emitted(f, ADD_LOOP, emit::phi(Seq::empty()), Type::I32);
    let running = g1.next_value();
    let g2 = emit::emitted(g1, ADD_LOOP, emit::phi(Seq::empty()), Type::I32);
    let adding = g2.next_value();
    let g3 = emit::emitted(g2, ADD_LOOP, emit::comparison(CompareOp::Lt, add_index, c.copy_count), Type::I1);
    let g4 = emit::ended(g3, ADD_LOOP, emit::branch(adding, ADD_BODY, OUTER_LATCH));
    let offset = g4.next_value();
    let g5 = emit::emitted(g4, ADD_BODY, emit::binary(BinaryOp::Imul, add_index, c.increment), Type::I32);
    let contribution = g5.next_value();
    let g6 = emit::emitted(g5, ADD_BODY, emit::binary(BinaryOp::Iadd, c.base, offset), Type::I32);
    let added = g6.next_value();
    let g7 = emit::emitted(g6, ADD_BODY, emit::binary(BinaryOp::Iadd, running, contribution), Type::I32);
    let reduced = g7.next_value();
    let g8 = emit::emitted(g7, ADD_BODY, emit::binary(BinaryOp::Imod, added, k.modulus), Type::I32);
    let next_add_index = g8.next_value();
    let g9 = emit::emitted(g8, ADD_BODY, emit::binary(BinaryOp::Iadd, add_index, k.one), Type::I32);
    let g10 = emit::ended(g9, ADD_BODY, Terminator::Jump(BlockId(ADD_LOOP)));
    let next_answer = g10.next_value();
    let g11 = emit::emitted(g10, OUTER_LATCH, emit::phi(Seq::empty()), Type::I32);
    let next_odd = g11.next_value();
    let g12 = emit::emitted(g11, OUTER_LATCH, emit::binary(BinaryOp::Iadd, s.odd, k.two), Type::I32);
    let g13 = emit::ended(g12, OUTER_LATCH, Terminator::Jump(BlockId(OUTER)));
    let g14 = emit::ended(g13, EXIT, Terminator::Return(Some(s.answer)));
    (g14, Adding { add_index, running, reduced, next_add_index, next_answer, next_odd })
}

fn build_adding(func: &mut Function, k: Constants, s: Search, c: Copies) -> (r: Adding)
    requires
        old(func)@.blocks.len() == BLOCKS,
    ensures
        (final(func)@, r) == adding_built(old(func)@, k, s, c),
        final(func)@.blocks.len() == BLOCKS,
{
    proof {
        reveal(adding_built);
    }
    let add_index = emit_phi(func, ADD_LOOP, Vec::new());
    let running = emit_phi(func, ADD_LOOP, Vec::new());
    let adding = emit_comparison(func, ADD_LOOP, CompareOp::Lt, add_index, c.copy_count);
    end_branch(func, ADD_LOOP, adding, ADD_BODY, OUTER_LATCH);
    let offset = emit_binary(func, ADD_BODY, BinaryOp::Imul, add_index, c.increment);
    let contribution = emit_binary(func, ADD_BODY, BinaryOp::Iadd, c.base, offset);
    let added = emit_binary(func, ADD_BODY, BinaryOp::Iadd, running, contribution);
    let reduced = emit_binary(func, ADD_BODY, BinaryOp::Imod, added, k.modulus);
    let next_add_index = emit_binary(func, ADD_BODY, BinaryOp::Iadd, add_index, k.one);
    end_jump(func, ADD_BODY, ADD_LOOP);
    let next_answer = emit_phi(func, OUTER_LATCH, Vec::new());
    let next_odd = emit_binary(func, OUTER_LATCH, BinaryOp::Iadd, s.odd, k.two);
    end_jump(func, OUTER_LATCH, OUTER);
    end_return(func, EXIT, s.answer);
    Adding { add_index, running, reduced, next_add_index, next_answer, next_odd }
}

/// The incoming values of the loop over the odd numbers.
pub open spec fn outer_phis_built(f: FuncView, k: Constants, s: Search, a: Adding) -> FuncView {
    let g1 = emit::phi_set(f, s.odd, seq![(BlockId(ENTRY), k.one), (BlockId(OUTER_LATCH), a.next_odd)]);
    let g2 = emit::phi_set(g1, s.answer, seq![(BlockId(ENTRY), k.zero), (BlockId(OUTER_LATCH), a.next_answer)]);
    g2
}

fn build_outer_phis(func: &mut Function, k: Constants, s: Search, a: Adding)
    requires
        old(func)@.blocks.len() == BLOCKS,
    ensures
        final(func)@ == outer_phis_built(old(func)@, k, s, a),
        final(func)@.blocks.len() == BLOCKS,
{
    let entries = vec![(BlockId(ENTRY), k.one), (BlockId(OUTER_LATCH), a.next_odd)];
    assert(entries@ =~= seq![(BlockId(ENTRY), k.one), (BlockId(OUTER_LATCH), a.next_odd)]);
    set_phi(func, s.odd, entries);
    let entries = vec![(BlockId(ENTRY), k.zero), (BlockId(OUTER_LATCH), a.next_answer)];
    assert(entries@ =~= seq![(BlockId(ENTRY), k.zero), (BlockId(OUTER_LATCH), a.next_answer)]);
    set_phi(func, s.answer, entries);
}

/// The incoming values of the loops over the multiples.
pub open spec fn sum_phis_built(f: FuncView, k: Constants, s: Search, c: Copies, g: Aggregate, a: Adding) -> FuncView {
    let g1 = emit::phi_set(f, c.scaled, seq![(BlockId(CACHE_STORE_DONE), s.odd), (BlockId(COPIES_BODY), c.doubled)]);
    let g2 = emit::phi_set(g1, c.copy_count, seq![(BlockId(CACHE_STORE_DONE), k.one), (BlockId(COPIES_BODY), c.next_copy_count)]);
    let g3 = emit::phi_set(g2, a.add_index, seq![(BlockId(VALUE_DONE), k.zero), (BlockId(ADD_BODY), a.next_add_index)]);
    let g4 = emit::phi_set(g3, a.running, seq![(BlockId(VALUE_DONE), s.answer), (BlockId(ADD_BODY), a.reduced)]);
    let g5 = emit::phi_set(g4, a.next_answer, seq![(BlockId(AGGREGATE), g.group_reduced), (BlockId(ADD_LOOP), a.running)]);
    g5
}

fn build_sum_phis(func: &mut Function, k: Constants, s: Search, c: Copies, g: Aggregate, a: Adding)
    requires
        old(func)@.blocks.len() == BLOCKS,
    ensures
        final(func)@ == sum_phis_built(old(func)@, k, s, c, g, a),
        final(func)@.blocks.len() == BLOCKS,
{
    let entries = vec![(BlockId(CACHE_STORE_DONE), s.odd), (BlockId(COPIES_BODY), c.doubled)];
    assert(entries@ =~= seq![(BlockId(CACHE_STORE_DONE), s.odd), (BlockId(COPIES_BODY), c.doubled)]);
    set_phi(func, c.scaled, entries);
    let entries = vec![(BlockId(CACHE_STORE_DONE), k.one), (BlockId(COPIES_BODY), c.next_copy_count)];
    assert(entries@ =~= seq![(BlockId(CACHE_STORE_DONE), k.one), (BlockId(COPIES_BODY), c.next_copy_count)]);
    set_phi(func, c.copy_count, entries);
    let entries = vec![(BlockId(VALUE_DONE), k.zero), (BlockId(ADD_BODY), a.next_add_index)];
    assert(entries@ =~= seq![(BlockId(VALUE_DONE), k.zero), (BlockId(ADD_BODY), a.next_add_index)]);
    set_phi(func, a.add_index, entries);
    let entries = vec![(BlockId(VALUE_DONE), s.answer), (BlockId(ADD_BODY), a.reduced)];
    assert(entries@ =~= seq![(BlockId(VALUE_DONE), s.answer), (BlockId(ADD_BODY), a.reduced)]);
    set_phi(func, a.running, entries);
    let entries = vec![(BlockId(AGGREGATE), g.group_reduced), (BlockId(ADD_LOOP), a.running)];
    assert(entries@ =~= seq![(BlockId(AGGREGATE), g.group_reduced), (BlockId(ADD_LOOP), a.running)]);
    set_phi(func, a.next_answer, entries);
}

/// The incoming values of the chain.
pub open spec fn chain_phis_built(
    f: FuncView,
    k: Constants,
    s: Search,
    three: Three,
    four: Option<Four>,
) -> FuncView {
    let states = seq![
        (BlockId(OUTER), s.odd),
        (BlockId(EVEN), s.half_state),
        (BlockId(ODD_THREE), three.next_three),
    ];
    let depths = seq![
        (BlockId(OUTER), k.zero),
        (BlockId(EVEN), s.even_depth),
        (BlockId(ODD_THREE), three.three_depth),
    ];
    match four {
        Some(four) => emit::phi_set(
            emit::phi_set(f, s.state, states.push((BlockId(ODD_FOUR), four.next_four))),
            s.depth,
            depths.push((BlockId(ODD_FOUR), four.four_depth)),
        ),
        None => emit::phi_set(emit::phi_set(f, s.state, states), s.depth, depths),
    }
}

fn build_chain_phis(
    func: &mut Function,
    k: Constants,
    s: Search,
    three: Three,
    four: Option<Four>,
)
    requires
        old(func)@.blocks.len() == BLOCKS,
    ensures
        final(func)@ == chain_phis_built(old(func)@, k, s, three, four),
        final(func)@.blocks.len() == BLOCKS,
{
    let mut states = vec![
        (BlockId(OUTER), s.odd),
        (BlockId(EVEN), s.half_state),
        (BlockId(ODD_THREE), three.next_three),
    ];
    let mut depths = vec![
        (BlockId(OUTER), k.zero),
        (BlockId(EVEN), s.even_depth),
        (BlockId(ODD_THREE), three.three_depth),
    ];
    assert(states@ =~= seq![
        (BlockId(OUTER), s.odd),
        (BlockId(EVEN), s.half_state),
        (BlockId(ODD_THREE), three.next_three),
    ]);
    assert(depths@ =~= seq![
        (BlockId(OUTER), k.zero),
        (BlockId(EVEN), s.even_depth),
        (BlockId(ODD_THREE), three.three_depth),
    ]);
    if let Some(four) = four {
        states.push((BlockId(ODD_FOUR), four.next_four));
        depths.push((BlockId(ODD_FOUR), four.four_depth));
    }
    set_phi(func, s.state, states);
    set_phi(func, s.depth, depths);
}

/// The steps of an odd state.
pub open spec fn odd_steps_built(f: FuncView, k: Constants, s: Search, kind: RecurrenceKind) -> (
    FuncView,
    Three,
    Option<Four>,
) {
    match kind {
        RecurrenceKind::ThreeOnly => {
            let (f1, three) = three_built(f, k, s, FAILURE);
            (emit::ended(f1, ODD_FOUR, Terminator::Jump(BlockId(FAILURE))), three, None)
        },
        RecurrenceKind::ThreeThenFour => {
            let (f1, three) = three_built(f, k, s, ODD_FOUR);
            let (f2, four) = four_built(f1, k, s);
            (f2, three, Some(four))
        },
    }
}

fn build_odd_steps(func: &mut Function, k: Constants, s: Search, kind: RecurrenceKind) -> (r: (
    Three,
    Option<Four>,
))
    requires
        old(func)@.blocks.len() == BLOCKS,
    ensures
        (final(func)@, r.0, r.1) == odd_steps_built(old(func)@, k, s, kind),
        final(func)@.blocks.len() == BLOCKS,
{
    match kind {
        RecurrenceKind::ThreeOnly => {
            let three = build_three(func, k, s, FAILURE);
            end_jump(func, ODD_FOUR, FAILURE);
            (three, None)
        },
        RecurrenceKind::ThreeThenFour => {
            let three = build_three(func, k, s, ODD_FOUR);
            let four = build_four(func, k, s);
            (three, Some(four))
        },
    }
}

/// The helper that sums a recurrence of the given kind, modulo the modulus,
/// over the numbers up to its parameter. Outcomes of odd numbers are kept in
/// the cache.
pub open spec fn grouped_helper(
    name: Seq<char>,
    modulus: i32,
    cache: Seq<char>,
    kind: RecurrenceKind,
) -> FuncView {
    let (f1, k0) = small_constants(skeleton(name), kind);
    let (f2, k) = large_constants(f1, k0, modulus, cache);
    let (f3, s) = search_built(f2, k);
    let (f4, l) = lookup_built(f3, k, s);
    let (f5, three, four) = odd_steps_built(f4, k, s, kind);
    let (f6, o) = outcome_built(f5, k, s, l);
    let (f7, c) = copies_built(f6, k, s, o);
    let (f8, g) = aggregate_built(f7, k, s, c);
    let (f9, a) = adding_built(f8, k, s, c);
    let f10 = outer_phis_built(f9, k, s, a);
    let f11 = chain_phis_built(f10, k, s, three, four);
    sum_phis_built(f11, k, s, c, g, a)
}

/// Builds the helper.
pub fn build_grouped_helper(name: &str, modulus: i32, cache: &str, kind: RecurrenceKind) -> (r:
    Function)
    requires
        modulus > 0,
    ensures
        r@ == grouped_helper(name@, modulus, cache@, kind),
{
    let mut func = build_skeleton(name);
    let k0 = add_small_constants(&mut func, kind);
    let k = add_large_constants(&mut func, k0, modulus, cache);
    let s = build_search(&mut func, k);
    let l = build_lookup(&mut func, k, s);
    let (three, four) = build_odd_steps(&mut func, k, s, kind);
    let o = build_outcome(&mut func, k, s, l);
    let c = build_copies(&mut func, k, s, o);
    let g = build_aggregate(&mut func, k, s, c);
    let a = build_adding(&mut func, k, s, c);
    build_outer_phis(&mut func, k, s, a);
    build_chain_phis(&mut func, k, s, three, four);
    build_sum_phis(&mut func, k, s, c, g, a);
    func
}

} // verus!
