//! Memoization of pure branching recursion over two integers.
//!
//! A wrapper takes the function's name and looks the arguments up before it
//! calls the body. The tags are cleared at every outermost call, so that a
//! result never outlives the globals it was computed from. Arguments outside
//! the bounds of the cache go to the body.
use vstd::prelude::*;

use crate::emit;
use crate::emit::{
    add_named_blocks, emit_binary, emit_boolean, emit_call, emit_comparison, emit_element,
    emit_load, emit_phi, emit_store, emit_zeroing, end_branch, end_jump, end_return,
};
use crate::ir::{
    BinaryOp, BlockId, BlockView, CompareOp, Const, FuncView, Function, Global, GlobalView,
    InstKind, InstView, KindView, Module, ModuleView, Terminator, Type, ValueId, ValueKindView,
    ValueView,
};
use crate::names;
use crate::names::{has_func_named, has_global_named, joined, numbered};
use crate::patterns;
use crate::patterns::reachable_from;
use crate::verify;

verus! {

pub const FIRST_PARAM_LIMIT: i32 = 64;

pub const SECOND_PARAM_LIMIT: i32 = 1024;

/// One entry for every pair of arguments within the limits.
pub const CACHE_ENTRIES: usize = 65536;

pub const CACHE_BYTES: usize = 262144;

pub const ENTRY: usize = 0;

pub const CLEAR: usize = 1;

pub const PREPARE: usize = 2;

pub const LOOKUP: usize = 3;

pub const HIT: usize = 4;

pub const MISS: usize = 5;

pub const UNCACHED: usize = 6;

pub const FINISH: usize = 7;

pub const BLOCKS: usize = 8;

// ---------------------------------------------------------------------------
// The wrapper
// ---------------------------------------------------------------------------

/// The names of the blocks behind the entry.
pub open spec fn block_names() -> Seq<Seq<char>> {
    seq![
        "memo.clear"@,
        "memo.prepare"@,
        "memo.lookup"@,
        "memo.hit"@,
        "memo.miss"@,
        "memo.uncached"@,
        "memo.finish"@,
    ]
}

/// The type of the tags and of the values.
pub open spec fn array_ty() -> Type {
    Type::Array { elem: Box::new(Type::I32), len: CACHE_ENTRIES }
}

fn cache_array_type() -> (r: Type)
    ensures
        r == array_ty(),
{
    Type::Array { elem: Box::new(Type::I32), len: CACHE_ENTRIES }
}

/// The parameters, constants and globals of the wrapper.
#[derive(Clone, Copy, PartialEq, Eq, Structural)]
pub struct Parts {
    pub first: ValueId,
    pub second: ValueId,
    pub zero: ValueId,
    pub one: ValueId,
    pub first_limit: ValueId,
    pub second_limit: ValueId,
    pub depth_ptr: ValueId,
    pub tags_ptr: ValueId,
    pub values_ptr: ValueId,
}

/// The names that belong to one wrapper.
pub struct Names {
    pub body: String,
    pub tags: String,
    pub values: String,
    pub depth: String,
}

pub struct NamesView {
    pub body: Seq<char>,
    pub tags: Seq<char>,
    pub values: Seq<char>,
    pub depth: Seq<char>,
}

impl View for Names {
    type V = NamesView;

    open spec fn view(&self) -> NamesView {
        NamesView {
            body: self.body@,
            tags: self.tags@,
            values: self.values@,
            depth: self.depth@,
        }
    }
}

pub open spec fn parameter(name: Seq<char>) -> ValueView {
    ValueView { name: Some(name), ty: Type::I32, kind: ValueKindView::Param }
}

/// The wrapper without instructions.
pub open spec fn skeleton(name: Seq<char>) -> FuncView {
    let f = FuncView {
        name,
        params: seq![ValueId(0), ValueId(1)],
        ret: Type::I32,
        entry: BlockId(0),
        blocks: seq![BlockView { name: "entry"@, insts: Seq::empty(), terminator: None }],
        values: seq![parameter("memo.first"@), parameter("memo.second"@)],
        recursive_cfg_inline_decided: false,
        reduction_jammed: false,
    };
    emit::blocks_named(f, block_names(), 0)
}

fn build_skeleton(name: &str) -> (r: Function)
    ensures
        r@ == skeleton(name@),
        r@.blocks.len() == BLOCKS,
{
    let mut func = Function::new(name, Type::I32);
    let first = func.add_param("memo.first", Type::I32);
    let second = func.add_param("memo.second", Type::I32);
    assert(func@.params =~= seq![ValueId(0), ValueId(1)]);
    assert(func@.values =~= seq![parameter("memo.first"@), parameter("memo.second"@)]);
    let names = vec![
        "memo.clear",
        "memo.prepare",
        "memo.lookup",
        "memo.hit",
        "memo.miss",
        "memo.uncached",
        "memo.finish",
    ];
    assert(emit::texts(names@) =~= block_names());
    add_named_blocks(&mut func, &names);
    func
}

/// The wrapper's constants and globals.
pub open spec fn with_parts(f: FuncView, n: NamesView) -> (FuncView, Parts) {
    let zero = f.next_value();
    let g1 = f.add_const(Const::Int(0));
    let one = g1.next_value();
    let g2 = g1.add_const(Const::Int(1));
    let first_limit = g2.next_value();
    let g3 = g2.add_const(Const::Int(FIRST_PARAM_LIMIT));
    let second_limit = g3.next_value();
    let g4 = g3.add_const(Const::Int(SECOND_PARAM_LIMIT));
    let depth_ptr = g4.next_value();
    let g5 = g4.add_global_ref(n.depth, Type::Ptr(Box::new(Type::I32)));
    let tags_ptr = g5.next_value();
    let g6 = g5.add_global_ref(n.tags, Type::Ptr(Box::new(array_ty())));
    let values_ptr = g6.next_value();
    let g7 = g6.add_global_ref(n.values, Type::Ptr(Box::new(array_ty())));
    (
        g7,
        Parts {
            first: ValueId(0),
            second: ValueId(1),
            zero,
            one,
            first_limit,
            second_limit,
            depth_ptr,
            tags_ptr,
            values_ptr,
        },
    )
}

fn add_parts(func: &mut Function, n: &Names) -> (r: Parts)
    ensures
        (final(func)@, r) == with_parts(old(func)@, n@),
        final(func)@.blocks == old(func)@.blocks,
{
    let zero = func.add_const(Const::Int(0));
    let one = func.add_const(Const::Int(1));
    let first_limit = func.add_const(Const::Int(FIRST_PARAM_LIMIT));
    let second_limit = func.add_const(Const::Int(SECOND_PARAM_LIMIT));
    let depth_ptr = func.add_global_ref(n.depth.as_str(), Type::Ptr(Box::new(Type::I32)));
    let tags_ptr = func.add_global_ref(
        n.tags.as_str(),
        Type::Ptr(Box::new(cache_array_type())),
    );
    let values_ptr = func.add_global_ref(
        n.values.as_str(),
        Type::Ptr(Box::new(cache_array_type())),
    );
    Parts {
        first: ValueId(0),
        second: ValueId(1),
        zero,
        one,
        first_limit,
        second_limit,
        depth_ptr,
        tags_ptr,
        values_ptr,
    }
}

#[derive(Clone, Copy, PartialEq, Eq, Structural)]
pub struct Opening {
    pub depth: ValueId,
}

/// The depth of the recursion is counted; at the outermost call the tags are cleared. Then the state is tested.
pub open spec fn opening_built(f: FuncView, w: Parts) -> (FuncView, Opening) {
    let depth = f.next_value();
    let g1 = emit::emitted(f, ENTRY, emit::load(w.depth_ptr), Type::I32);
    let outermost = g1.next_value();
    let g2 = emit::emitted(g1, ENTRY, emit::comparison(CompareOp::Eq, depth, w.zero), Type::I1);
    let g3 = emit::ended(g2, ENTRY, emit::branch(outermost, CLEAR, PREPARE));
    let g4 = emit::effected(g3, CLEAR, emit::zeroing(w.tags_ptr, CACHE_BYTES));
    let g5 = emit::ended(g4, CLEAR, Terminator::Jump(BlockId(PREPARE)));
    let next_depth = g5.next_value();
    let g6 = emit::emitted(g5, PREPARE, emit::binary(BinaryOp::Iadd, depth, w.one), Type::I32);
    let g7 = emit::effected(g6, PREPARE, emit::store(w.depth_ptr, next_depth));
    let first_nonnegative = g7.next_value();
    let g8 = emit::emitted(g7, PREPARE, emit::comparison(CompareOp::Ge, w.first, w.zero), Type::I1);
    let first_in_range = g8.next_value();
    let g9 = emit::emitted(g8, PREPARE, emit::comparison(CompareOp::Lt, w.first, w.first_limit), Type::I1);
    let second_nonnegative = g9.next_value();
    let g10 = emit::emitted(g9, PREPARE, emit::comparison(CompareOp::Ge, w.second, w.zero), Type::I1);
    let second_in_range = g10.next_value();
    let g11 = emit::emitted(g10, PREPARE, emit::comparison(CompareOp::Lt, w.second, w.second_limit), Type::I1);
    let first_valid = g11.next_value();
    let g12 = emit::emitted(g11, PREPARE, emit::binary(BinaryOp::And, first_nonnegative, first_in_range), Type::I1);
    let second_valid = g12.next_value();
    let g13 = emit::emitted(g12, PREPARE, emit::binary(BinaryOp::And, second_nonnegative, second_in_range), Type::I1);
    let cacheable = g13.next_value();
    let g14 = emit::emitted(g13, PREPARE, emit::binary(BinaryOp::And, first_valid, second_valid), Type::I1);
    let g15 = emit::ended(g14, PREPARE, emit::branch(cacheable, LOOKUP, UNCACHED));
    (g15, Opening { depth })
}

fn build_opening(func: &mut Function, w: Parts) -> (r: Opening)
    requires
        old(func)@.blocks.len() == BLOCKS,
    ensures
        (final(func)@, r) == opening_built(old(func)@, w),
        final(func)@.blocks.len() == BLOCKS,
{
    let depth = emit_load(func, ENTRY, w.depth_ptr);
    let outermost = emit_comparison(func, ENTRY, CompareOp::Eq, depth, w.zero);
    end_branch(func, ENTRY, outermost, CLEAR, PREPARE);
    emit_zeroing(func, CLEAR, w.tags_ptr, CACHE_BYTES);
    end_jump(func, CLEAR, PREPARE);
    let next_depth = emit_binary(func, PREPARE, BinaryOp::Iadd, depth, w.one);
    emit_store(func, PREPARE, w.depth_ptr, next_depth);
    let first_nonnegative = emit_comparison(func, PREPARE, CompareOp::Ge, w.first, w.zero);
    let first_in_range = emit_comparison(func, PREPARE, CompareOp::Lt, w.first, w.first_limit);
    let second_nonnegative = emit_comparison(func, PREPARE, CompareOp::Ge, w.second, w.zero);
    let second_in_range = emit_comparison(func, PREPARE, CompareOp::Lt, w.second, w.second_limit);
    let first_valid = emit_boolean(func, PREPARE, BinaryOp::And, first_nonnegative, first_in_range);
    let second_valid = emit_boolean(func, PREPARE, BinaryOp::And, second_nonnegative, second_in_range);
    let cacheable = emit_boolean(func, PREPARE, BinaryOp::And, first_valid, second_valid);
    end_branch(func, PREPARE, cacheable, LOOKUP, UNCACHED);
    Opening { depth }
}

#[derive(Clone, Copy, PartialEq, Eq, Structural)]
pub struct Lookup {
    pub tag_slot: ValueId,
    pub value_slot: ValueId,
    pub hit_value: ValueId,
}

/// The slot of the state is looked up.
pub open spec fn lookup_built(f: FuncView, w: Parts, stride: ValueId) -> (FuncView, Lookup) {
    let row_offset = f.next_value();
    let g1 = emit::emitted(f, LOOKUP, emit::binary(BinaryOp::Imul, w.first, stride), Type::I32);
    let index = g1.next_value();
    let g2 = emit::emitted(g1, LOOKUP, emit::binary(BinaryOp::Iadd, row_offset, w.second), Type::I32);
    let tag_slot = g2.next_value();
    let g3 = emit::emitted(g2, LOOKUP, emit::element(w.tags_ptr, w.zero, index), Type::Ptr(Box::new(Type::I32)));
    let value_slot = g3.next_value();
    let g4 = emit::emitted(g3, LOOKUP, emit::element(w.values_ptr, w.zero, index), Type::Ptr(Box::new(Type::I32)));
    let tag = g4.next_value();
    let g5 = emit::emitted(g4, LOOKUP, emit::load(tag_slot), Type::I32);
    let present = g5.next_value();
    let g6 = emit::emitted(g5, LOOKUP, emit::comparison(CompareOp::Ne, tag, w.zero), Type::I1);
    let g7 = emit::ended(g6, LOOKUP, emit::branch(present, HIT, MISS));
    let hit_value = g7.next_value();
    let g8 = emit::emitted(g7, HIT, emit::load(value_slot), Type::I32);
    let g9 = emit::ended(g8, HIT, Terminator::Jump(BlockId(FINISH)));
    (g9, Lookup { tag_slot, value_slot, hit_value })
}

fn build_lookup(func: &mut Function, w: Parts, stride: ValueId) -> (r: Lookup)
    requires
        old(func)@.blocks.len() == BLOCKS,
    ensures
        (final(func)@, r) == lookup_built(old(func)@, w, stride),
        final(func)@.blocks.len() == BLOCKS,
{
    let row_offset = emit_binary(func, LOOKUP, BinaryOp::Imul, w.first, stride);
    let index = emit_binary(func, LOOKUP, BinaryOp::Iadd, row_offset, w.second);
    let tag_slot = emit_element(func, LOOKUP, w.tags_ptr, w.zero, index);
    let value_slot = emit_element(func, LOOKUP, w.values_ptr, w.zero, index);
    let tag = emit_load(func, LOOKUP, tag_slot);
    let present = emit_comparison(func, LOOKUP, CompareOp::Ne, tag, w.zero);
    end_branch(func, LOOKUP, present, HIT, MISS);
    let hit_value = emit_load(func, HIT, value_slot);
    end_jump(func, HIT, FINISH);
    Lookup { tag_slot, value_slot, hit_value }
}

/// A missing result is computed and kept; a state outside the cache is computed. The depth is restored.
pub open spec fn closing_built(f: FuncView, w: Parts, o: Opening, l: Lookup, body: Seq<char>) -> FuncView {
    let miss_value = f.next_value();
    let g1 = emit::emitted(f, MISS, emit::call(body, seq![w.first, w.second]), Type::I32);
    let g2 = emit::effected(g1, MISS, emit::store(l.value_slot, miss_value));
    let g3 = emit::effected(g2, MISS, emit::store(l.tag_slot, w.one));
    let g4 = emit::ended(g3, MISS, Terminator::Jump(BlockId(FINISH)));
    let uncached_value = g4.next_value();
    let g5 = emit::emitted(g4, UNCACHED, emit::call(body, seq![w.first, w.second]), Type::I32);
    let g6 = emit::ended(g5, UNCACHED, Terminator::Jump(BlockId(FINISH)));
    let result = g6.next_value();
    let g7 = emit::emitted(g6, FINISH, emit::phi(seq![(BlockId(HIT), l.hit_value), (BlockId(MISS), miss_value), (BlockId(UNCACHED), uncached_value)]), Type::I32);
    let g8 = emit::effected(g7, FINISH, emit::store(w.depth_ptr, o.depth));
    let g9 = emit::ended(g8, FINISH, Terminator::Return(Some(result)));
    g9
}

fn build_closing(func: &mut Function, w: Parts, o: Opening, l: Lookup, body: &String)
    requires
        old(func)@.blocks.len() == BLOCKS,
    ensures
        final(func)@ == closing_built(old(func)@, w, o, l, body@),
        final(func)@.blocks.len() == BLOCKS,
{
    let args = vec![w.first, w.second];
    assert(args@ =~= seq![w.first, w.second]);
    let miss_value = emit_call(func, MISS, body, args);
    emit_store(func, MISS, l.value_slot, miss_value);
    emit_store(func, MISS, l.tag_slot, w.one);
    end_jump(func, MISS, FINISH);
    let args = vec![w.first, w.second];
    assert(args@ =~= seq![w.first, w.second]);
    let uncached_value = emit_call(func, UNCACHED, body, args);
    end_jump(func, UNCACHED, FINISH);
    let entries = vec![(BlockId(HIT), l.hit_value), (BlockId(MISS), miss_value), (BlockId(UNCACHED), uncached_value)];
    assert(entries@ =~= seq![(BlockId(HIT), l.hit_value), (BlockId(MISS), miss_value), (BlockId(UNCACHED), uncached_value)]);
    let result = emit_phi(func, FINISH, entries);
    emit_store(func, FINISH, w.depth_ptr, o.depth);
    end_return(func, FINISH, result);
}

/// The wrapper of a function.
pub open spec fn wrapper(name: Seq<char>, n: NamesView) -> FuncView {
    let (f1, w) = with_parts(skeleton(name), n);
    let (f2, o) = opening_built(f1, w);
    let stride = f2.next_value();
    let f3 = f2.add_const(Const::Int(SECOND_PARAM_LIMIT));
    let (f4, l) = lookup_built(f3, w, stride);
    closing_built(f4, w, o, l, n.body)
}

/// Builds the wrapper of a function.
pub fn build_wrapper(name: &str, n: &Names) -> (r: Function)
    ensures
        r@ == wrapper(name@, n@),
{
    let mut func = build_skeleton(name);
    let w = add_parts(&mut func, n);
    let o = build_opening(&mut func, w);
    let stride = func.add_const(Const::Int(SECOND_PARAM_LIMIT));
    let l = build_lookup(&mut func, w, stride);
    build_closing(&mut func, w, o, l, &n.body);
    func
}

// ---------------------------------------------------------------------------
// Names
// ---------------------------------------------------------------------------

/// The names with the given stem.
pub open spec fn stem_names(stem: Seq<char>) -> NamesView {
    NamesView {
        body: stem + "_body"@,
        tags: stem + "_tags"@,
        values: stem + "_values"@,
        depth: stem + "_depth"@,
    }
}

/// A function or a global has the name.
pub open spec fn is_taken(m: ModuleView, name: Seq<char>) -> bool {
    names::func_names(m).contains(name) || names::global_names(m).contains(name)
}

/// One of the names is taken.
pub open spec fn conflicts(m: ModuleView, n: NamesView) -> bool {
    is_taken(m, n.body) || is_taken(m, n.tags) || is_taken(m, n.values) || is_taken(m, n.depth)
}

pub open spec fn stem(name: Seq<char>, nonce: nat) -> Seq<char> {
    "__recursive_memo_"@ + name + "_"@ + names::decimal(nonce)
}

/// The names for the function: the first number from `nonce` on makes them
/// that makes names that are not taken.
pub open spec fn names_for(m: ModuleView, name: Seq<char>, nonce: nat) -> NamesView
    decreases usize::MAX - nonce,
{
    let n = stem_names(stem(name, nonce));
    if nonce >= usize::MAX || !conflicts(m, n) {
        n
    } else {
        names_for(m, name, nonce + 1)
    }
}

fn name_taken(module: &Module, name: &String) -> (r: bool)
    ensures
        r == is_taken(module@, name@),
{
    has_func_named(module, name) || has_global_named(module, name)
}

fn unique_names(module: &Module, name: &String, start: usize) -> (r: Names)
    ensures
        r@ == names_for(module@, name@, start as nat),
{
    let mut nonce = start;
    loop
        invariant
            names_for(module@, name@, start as nat) == names_for(module@, name@, nonce as nat),
        decreases usize::MAX - nonce,
    {
        let prefix = joined(joined("__recursive_memo_", name.as_str()).as_str(), "_");
        let text = numbered(prefix.as_str(), nonce);
        let n = Names {
            body: joined(text.as_str(), "_body"),
            tags: joined(text.as_str(), "_tags"),
            values: joined(text.as_str(), "_values"),
            depth: joined(text.as_str(), "_depth"),
        };
        assert(n@ == stem_names(stem(name@, nonce as nat)));
        if nonce == usize::MAX || !(name_taken(module, &n.body) || name_taken(module, &n.tags)
            || name_taken(module, &n.values) || name_taken(module, &n.depth)) {
            return n;
        }
        nonce = nonce + 1;
    }
}

// ---------------------------------------------------------------------------
// Candidates
// ---------------------------------------------------------------------------

/// The instruction calls the function itself.
pub open spec fn calls_itself(f: FuncView, inst: InstView) -> bool {
    match inst.kind {
        KindView::Call { name, .. } => name == f.name,
        _ => false,
    }
}

/// The instruction writes memory or calls another function.
pub open spec fn is_impure(f: FuncView, inst: InstView) -> bool {
    match inst.kind {
        KindView::Store { .. } => true,
        KindView::MemZero { .. } => true,
        KindView::MemCopy { .. } => true,
        KindView::Call { .. } => !calls_itself(f, inst),
        _ => false,
    }
}

/// The number of calls of the function itself among the first `n`
/// instructions.
pub open spec fn self_calls(f: FuncView, insts: Seq<InstView>, n: int) -> nat
    decreases n,
{
    if n <= 0 {
        0
    } else {
        self_calls(f, insts, n - 1) + (if calls_itself(f, insts[n - 1]) {
            1nat
        } else {
            0nat
        })
    }
}

/// The number of calls of the function itself in the reachable blocks among
/// the first `n`.
pub open spec fn live_self_calls(f: FuncView, n: int) -> nat
    decreases n,
{
    if n <= 0 {
        0
    } else {
        let insts = f.blocks[n - 1].insts;
        live_self_calls(f, n - 1) + (if patterns::reached_from(f, f.entry)[n - 1] {
            self_calls(f, insts, insts.len() as int)
        } else {
            0
        })
    }
}

/// The function maps two numbers to one, has no effects, and calls itself at
/// least twice.
pub open spec fn is_candidate(f: FuncView) -> bool {
    &&& f.ret == Type::I32
    &&& f.params.len() == 2
    &&& f.value(f.params[0]).ty == Type::I32
    &&& f.value(f.params[1]).ty == Type::I32
    &&& forall|b: BlockId, i: int|
        f.has_inst(b, i) && patterns::reached_from(f, f.entry)[b.0 as int] ==> !is_impure(
            f,
            #[trigger] f.inst(b, i),
        )
    &&& live_self_calls(f, f.blocks.len() as int) >= 2
}

/// `count` is `total`, as far as it matters whether it is at least two.
pub open spec fn counted(count: usize, total: nat) -> bool {
    if total < 2 {
        count == total
    } else {
        count == 2
    }
}

#[verifier::loop_isolation(false)]
fn is_pure_branching_recursion(func: &Function) -> (r: bool)
    requires
        func@.wf(),
    ensures
        r == is_candidate(func@),
{
    let ghost f = func@;
    if !func.ret.same(&Type::I32) || func.params.len() != 2 {
        return false;
    }
    assert(func.values.len() == f.values.len());
    assert(f.has_value(f.params[0]) && f.has_value(f.params[1]));
    assert(func.values@[f.params[0].0 as int]@ == f.value(f.params[0]));
    assert(func.values@[f.params[1].0 as int]@ == f.value(f.params[1]));
    if !func.values[func.params[0].0].ty.same(&Type::I32) || !func.values[func.params[1].0].ty.same(
        &Type::I32,
    ) {
        return false;
    }
    let live = reachable_from(func, func.entry);
    let n = func.blocks.len();
    let mut count: usize = 0;
    for x in 0..n
        invariant
            n == f.blocks.len(),
            forall|b: BlockId, i: int|
                b.0 < x && f.has_inst(b, i) && live@[b.0 as int] ==> !is_impure(
                    f,
                    #[trigger] f.inst(b, i),
                ),
            counted(count, live_self_calls(f, x as int)),
    {
        if live[x] {
            let ghost b = BlockId(x);
            let ghost insts = f.block(b).insts;
            let ghost before = live_self_calls(f, x as int);
            let m = func.blocks[x].insts.len();
            for i in 0..m
                invariant
                    m == insts.len(),
                    forall|j: int| 0 <= j < i ==> !is_impure(f, #[trigger] f.inst(b, j)),
                    counted(count, before + self_calls(f, insts, i as int)),
            {
                let inst = &func.blocks[x].insts[i];
                assert(inst@ == f.inst(b, i as int));
                let own = match &inst.kind {
                    InstKind::Call { name, .. } => *name == func.name,
                    _ => false,
                };
                let impure = match &inst.kind {
                    InstKind::Store { .. } => true,
                    InstKind::MemZero { .. } => true,
                    InstKind::MemCopy { .. } => true,
                    InstKind::Call { .. } => !own,
                    _ => false,
                };
                if impure {
                    assert(f.has_inst(b, i as int) && is_impure(f, f.inst(b, i as int)));
                    return false;
                }
                if own && count < 2 {
                    count = count + 1;
                }
            }
        }
    }
    count == 2
}

// ---------------------------------------------------------------------------
// The pass
// ---------------------------------------------------------------------------

pub open spec fn cache_global(name: Seq<char>, ty: Type) -> GlobalView {
    GlobalView { name, ty, is_const: false, init: Some(Const::Zero(ty)) }
}

/// The candidates among the first `n` functions.
pub open spec fn candidates_below(m: ModuleView, n: int) -> Seq<usize>
    decreases n,
{
    if n <= 0 {
        Seq::empty()
    } else {
        let before = candidates_below(m, n - 1);
        if is_candidate(m.funcs[n - 1]) {
            before.push((n - 1) as usize)
        } else {
            before
        }
    }
}

/// The module with the function wrapped. A wrapper that would not be valid is
/// not added.
pub open spec fn with_wrapper(m: ModuleView, k: usize, ordinal: nat) -> ModuleView {
    let f = m.funcs[k as int];
    let n = names_for(m, f.name, ordinal);
    if verify::valid(wrapper(f.name, n)) {
        ModuleView {
            globals: m.globals.push(cache_global(n.tags, array_ty())).push(
                cache_global(n.values, array_ty()),
            ).push(cache_global(n.depth, Type::I32)),
            funcs: m.funcs.update(k as int, FuncView { name: n.body, ..f }).push(
                wrapper(f.name, n),
            ),
        }
    } else {
        m
    }
}

/// The module with the first `n` listed functions wrapped.
pub open spec fn with_wrappers(m: ModuleView, list: Seq<usize>, n: int) -> ModuleView
    decreases n,
{
    if n <= 0 {
        m
    } else {
        with_wrapper(with_wrappers(m, list, n - 1), list[n - 1], (n - 1) as nat)
    }
}

/// The effect of the pass.
pub open spec fn memoized(m: ModuleView) -> ModuleView {
    let list = candidates_below(m, m.funcs.len() as int);
    with_wrappers(m, list, list.len() as int)
}

fn append_cache_global(module: &mut Module, name: &String, ty: Type)
    ensures
        final(module)@ == (ModuleView {
            globals: old(module)@.globals.push(cache_global(name@, ty)),
            ..old(module)@
        }),
{
    module.globals.push(
        Global { name: name.clone(), ty: ty.clone(), is_const: false, init: Some(Const::Zero(ty)) },
    );
    assert(module@.globals =~= old(module)@.globals.push(cache_global(name@, ty)));
}

fn wrap_function(module: &mut Module, k: usize, ordinal: usize)
    requires
        old(module)@.wf(),
        k < old(module)@.funcs.len(),
    ensures
        final(module)@ == with_wrapper(old(module)@, k, ordinal as nat),
        final(module)@.wf(),
        final(module)@.funcs.len() >= old(module)@.funcs.len(),
{
    let ghost m = module@;
    let ghost want = with_wrapper(m, k, ordinal as nat);
    assert(module@.funcs[k as int] == module.funcs@[k as int]@);
    let name = module.funcs[k].name.clone();
    let n = unique_names(module, &name, ordinal);
    let built = build_wrapper(name.as_str(), &n);
    if built.verify().is_ok() {
        let mut body = module.funcs[k].clone();
        body.name = n.body.clone();
        module.funcs.set(k, body);
        assert(module@.funcs =~= m.funcs.update(k as int, body@));
        append_cache_global(module, &n.tags, cache_array_type());
        append_cache_global(module, &n.values, cache_array_type());
        append_cache_global(module, &n.depth, Type::I32);
        let ghost funcs = module@.funcs;
        module.funcs.push(built);
        assert(module@.funcs =~= funcs.push(built@));
        assert(module@ == want);
    }
}

fn find_candidates(module: &Module) -> (r: Vec<usize>)
    requires
        module@.wf(),
    ensures
        r@ == candidates_below(module@, module@.funcs.len() as int),
        forall|j: int| 0 <= j < r.len() ==> #[trigger] r@[j] < module@.funcs.len(),
{
    let n = module.funcs.len();
    let mut r: Vec<usize> = Vec::new();
    for k in 0..n
        invariant
            n == module.funcs.len(),
            n == module@.funcs.len(),
            module@.wf(),
            r@ == candidates_below(module@, k as int),
            forall|j: int| 0 <= j < r.len() ==> #[trigger] r@[j] < k,
    {
        assert(module@.funcs[k as int] == module.funcs@[k as int]@);
        if is_pure_branching_recursion(&module.funcs[k]) {
            r.push(k);
        }
    }
    r
}

/// The pass over a module.
pub struct RecursiveMemoizePass;

impl RecursiveMemoizePass {
    pub fn new() -> (r: Self) {
        RecursiveMemoizePass
    }

    /// Wraps the functions that qualify.
    pub fn run(&self, module: &mut Module)
        requires
            old(module)@.wf(),
        ensures
            final(module)@ == memoized(old(module)@),
            final(module)@.wf(),
    {
        let ghost m = module@;
        let list = find_candidates(module);
        let n = list.len();
        for k in 0..n
            invariant
                n == list.len(),
                list@ == candidates_below(m, m.funcs.len() as int),
                module@ == with_wrappers(m, list@, k as int),
                module@.wf(),
                module@.funcs.len() >= m.funcs.len(),
                forall|j: int| 0 <= j < list.len() ==> #[trigger] list@[j] < m.funcs.len(),
        {
            wrap_function(module, list[k], k);
        }
    }
}

// ---------------------------------------------------------------------------
// Laws
// ---------------------------------------------------------------------------

/// The slot of a pair of arguments.
pub open spec fn slot(first: int, second: int) -> int {
    first * SECOND_PARAM_LIMIT + second
}

/// Every pair of arguments within the limits has a slot of its own.
pub proof fn slots_are_distinct(a: int, b: int, c: int, d: int)
    requires
        0 <= a < FIRST_PARAM_LIMIT,
        0 <= b < SECOND_PARAM_LIMIT,
        0 <= c < FIRST_PARAM_LIMIT,
        0 <= d < SECOND_PARAM_LIMIT,
    ensures
        0 <= slot(a, b) < CACHE_ENTRIES,
        slot(a, b) == slot(c, d) ==> a == c && b == d,
{
}

proof fn lemma_candidates_in(m: ModuleView, n: int)
    requires
        n <= m.funcs.len() <= usize::MAX,
    ensures
        forall|j: int|
            0 <= j < candidates_below(m, n).len() ==> (#[trigger] candidates_below(m, n)[j])
                < m.funcs.len(),
    decreases n,
{
    if n > 0 {
        lemma_candidates_in(m, n - 1);
        let before = candidates_below(m, n - 1);
        let all = candidates_below(m, n);
        assert forall|j: int| 0 <= j < all.len() implies (#[trigger] all[j]) < m.funcs.len() by {
            if j < before.len() {
                assert(all[j] == before[j]);
                assert(before[j] < m.funcs.len());
            }
        }
    }
}

proof fn lemma_wrappers_valid(m: ModuleView, list: Seq<usize>, n: int)
    requires
        verify::all_valid(m),
        n <= list.len(),
        forall|j: int| 0 <= j < list.len() ==> (#[trigger] list[j]) < m.funcs.len(),
    ensures
        verify::all_valid(with_wrappers(m, list, n)),
        with_wrappers(m, list, n).funcs.len() >= m.funcs.len(),
    decreases n,
{
    if n > 0 {
        lemma_wrappers_valid(m, list, n - 1);
        let before = with_wrappers(m, list, n - 1);
        let after = with_wrappers(m, list, n);
        let k = list[n - 1] as int;
        let f = before.funcs[k];
        let names = names_for(before, f.name, (n - 1) as nat);
        assert(verify::valid(f));
        verify::validity_depends_on_the_code(f, FuncView { name: names.body, ..f });
        assert forall|j: int| 0 <= j < after.funcs.len() implies verify::valid(
            #[trigger] after.funcs[j],
        ) by {
            if j < before.funcs.len() && j != k {
                assert(after.funcs[j] == before.funcs[j]);
            }
        }
    }
}

/// The pass keeps functions valid, and adds valid ones.
pub proof fn memoizing_keeps_validity(m: ModuleView)
    requires
        verify::all_valid(m),
        m.funcs.len() <= usize::MAX,
    ensures
        verify::all_valid(memoized(m)),
{
    let n = m.funcs.len() as int;
    lemma_candidates_in(m, n);
    let list = candidates_below(m, n);
    lemma_wrappers_valid(m, list, list.len() as int);
}

} // verus!
