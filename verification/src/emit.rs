//! Building of functions from scratch, one instruction at a time.
//!
//! The steps are opaque to the prover, so that a contract that lists many of
//! them stays cheap; `reveal` opens them.
use vstd::prelude::*;

use crate::ir;
use crate::ir::{
    BinaryOp, BlockId, CompareOp, FuncView, Function, Inst, InstKind, InstView, KindView,
    Terminator, Type, ValueId, ValueKind, ValueKindView,
};
use crate::util;
use crate::util::defining_inst;

verus! {

/// The function with an instruction that defines a value at the end of block
/// `b`.
#[verifier::opaque]
pub open spec fn emitted(f: FuncView, b: usize, kind: KindView, ty: Type) -> FuncView {
    f.append(BlockId(b), kind, ty)
}

pub fn emit(func: &mut Function, b: usize, kind: InstKind, ty: Type) -> (r: ValueId)
    requires
        b < old(func)@.blocks.len(),
    ensures
        final(func)@ == emitted(old(func)@, b, kind@, ty),
        r == old(func)@.next_value(),
        final(func)@.blocks.len() == old(func)@.blocks.len(),
        final(func)@.values.len() == old(func)@.values.len() + 1,
{
    reveal(emitted);
    func.append_value(BlockId(b), kind, ty)
}

/// The integer operation.
pub open spec fn binary(op: BinaryOp, lhs: ValueId, rhs: ValueId) -> KindView {
    KindView::Binary { op, lhs, rhs }
}

pub fn emit_binary(func: &mut Function, b: usize, op: BinaryOp, lhs: ValueId, rhs: ValueId) -> (r:
    ValueId)
    requires
        b < old(func)@.blocks.len(),
    ensures
        final(func)@ == emitted(old(func)@, b, binary(op, lhs, rhs), Type::I32),
        r == old(func)@.next_value(),
        final(func)@.blocks.len() == old(func)@.blocks.len(),
        final(func)@.values.len() == old(func)@.values.len() + 1,
{
    emit(func, b, InstKind::Binary { op, lhs, rhs }, Type::I32)
}

pub fn emit_boolean(func: &mut Function, b: usize, op: BinaryOp, lhs: ValueId, rhs: ValueId) -> (r:
    ValueId)
    requires
        b < old(func)@.blocks.len(),
    ensures
        final(func)@ == emitted(old(func)@, b, binary(op, lhs, rhs), Type::I1),
        r == old(func)@.next_value(),
        final(func)@.blocks.len() == old(func)@.blocks.len(),
        final(func)@.values.len() == old(func)@.values.len() + 1,
{
    emit(func, b, InstKind::Binary { op, lhs, rhs }, Type::I1)
}

/// The comparison.
pub open spec fn comparison(op: CompareOp, lhs: ValueId, rhs: ValueId) -> KindView {
    KindView::ICompare { op, lhs, rhs }
}

pub fn emit_comparison(
    func: &mut Function,
    b: usize,
    op: CompareOp,
    lhs: ValueId,
    rhs: ValueId,
) -> (r: ValueId)
    requires
        b < old(func)@.blocks.len(),
    ensures
        final(func)@ == emitted(old(func)@, b, comparison(op, lhs, rhs), Type::I1),
        r == old(func)@.next_value(),
        final(func)@.blocks.len() == old(func)@.blocks.len(),
        final(func)@.values.len() == old(func)@.values.len() + 1,
{
    emit(func, b, InstKind::ICompare { op, lhs, rhs }, Type::I1)
}

/// The load.
pub open spec fn load(ptr: ValueId) -> KindView {
    KindView::Load { ptr }
}

pub fn emit_load(func: &mut Function, b: usize, ptr: ValueId) -> (r: ValueId)
    requires
        b < old(func)@.blocks.len(),
    ensures
        final(func)@ == emitted(old(func)@, b, load(ptr), Type::I32),
        r == old(func)@.next_value(),
        final(func)@.blocks.len() == old(func)@.blocks.len(),
        final(func)@.values.len() == old(func)@.values.len() + 1,
{
    emit(func, b, InstKind::Load { ptr }, Type::I32)
}

/// The address of an element.
pub open spec fn element(base: ValueId, zero: ValueId, index: ValueId) -> KindView {
    KindView::Gep { base, indices: seq![zero, index] }
}

/// Computes the address of an element of an array of integers.
pub fn emit_element(func: &mut Function, b: usize, base: ValueId, zero: ValueId, index: ValueId) -> (r:
    ValueId)
    requires
        b < old(func)@.blocks.len(),
    ensures
        final(func)@ == emitted(
            old(func)@,
            b,
            element(base, zero, index),
            Type::Ptr(Box::new(Type::I32)),
        ),
        r == old(func)@.next_value(),
        final(func)@.blocks.len() == old(func)@.blocks.len(),
        final(func)@.values.len() == old(func)@.values.len() + 1,
{
    let indices = vec![zero, index];
    assert(indices@ =~= seq![zero, index]);
    emit(func, b, InstKind::Gep { base, indices }, Type::Ptr(Box::new(Type::I32)))
}

/// The phi.
pub open spec fn phi(incomings: Seq<(BlockId, ValueId)>) -> KindView {
    KindView::Phi { incomings }
}

pub fn emit_phi(func: &mut Function, b: usize, incomings: Vec<(BlockId, ValueId)>) -> (r: ValueId)
    requires
        b < old(func)@.blocks.len(),
    ensures
        final(func)@ == emitted(old(func)@, b, phi(incomings@), Type::I32),
        r == old(func)@.next_value(),
        final(func)@.blocks.len() == old(func)@.blocks.len(),
        final(func)@.values.len() == old(func)@.values.len() + 1,
{
    emit(func, b, InstKind::Phi { incomings }, Type::I32)
}

/// The call.
pub open spec fn call(name: Seq<char>, args: Seq<ValueId>) -> KindView {
    KindView::Call { name, args }
}

pub fn emit_call(func: &mut Function, b: usize, name: &String, args: Vec<ValueId>) -> (r: ValueId)
    requires
        b < old(func)@.blocks.len(),
    ensures
        final(func)@ == emitted(old(func)@, b, call(name@, args@), Type::I32),
        r == old(func)@.next_value(),
        final(func)@.blocks.len() == old(func)@.blocks.len(),
        final(func)@.values.len() == old(func)@.values.len() + 1,
{
    emit(func, b, InstKind::Call { name: name.clone(), args }, Type::I32)
}

/// The function with an instruction without a result at the end of block `b`.
#[verifier::opaque]
pub open spec fn effected(f: FuncView, b: usize, kind: KindView) -> FuncView {
    f.append_effect(BlockId(b), kind)
}

/// Appends an instruction without a result.
pub fn emit_effect(func: &mut Function, b: usize, kind: InstKind)
    requires
        b < old(func)@.blocks.len(),
    ensures
        final(func)@ == effected(old(func)@, b, kind@),
        final(func)@.blocks.len() == old(func)@.blocks.len(),
        final(func)@.values.len() == old(func)@.values.len(),
{
    reveal(effected);
    func.append_effect(BlockId(b), kind);
}

/// The store.
pub open spec fn store(ptr: ValueId, value: ValueId) -> KindView {
    KindView::Store { ptr, value }
}

pub fn emit_store(func: &mut Function, b: usize, ptr: ValueId, value: ValueId)
    requires
        b < old(func)@.blocks.len(),
    ensures
        final(func)@ == effected(old(func)@, b, store(ptr, value)),
        final(func)@.blocks.len() == old(func)@.blocks.len(),
        final(func)@.values.len() == old(func)@.values.len(),
{
    reveal(effected);
    func.append_effect(BlockId(b), InstKind::Store { ptr, value });
}

/// The zeroing of a fixed number of bytes.
pub open spec fn zeroing(ptr: ValueId, bytes: usize) -> KindView {
    KindView::MemZero { ptr, bytes, count: None }
}

pub fn emit_zeroing(func: &mut Function, b: usize, ptr: ValueId, bytes: usize)
    requires
        b < old(func)@.blocks.len(),
    ensures
        final(func)@ == effected(old(func)@, b, zeroing(ptr, bytes)),
        final(func)@.blocks.len() == old(func)@.blocks.len(),
        final(func)@.values.len() == old(func)@.values.len(),
{
    reveal(effected);
    func.append_effect(BlockId(b), InstKind::MemZero { ptr, bytes, count: None });
}

/// The function with the terminator of block `b` set.
#[verifier::opaque]
pub open spec fn ended(f: FuncView, b: usize, t: Terminator) -> FuncView {
    f.with_terminator(BlockId(b), Some(t))
}

/// The branch.
pub open spec fn branch(cond: ValueId, t: usize, e: usize) -> Terminator {
    Terminator::Branch { cond, then_target: BlockId(t), else_target: BlockId(e) }
}

pub fn end_branch(func: &mut Function, b: usize, cond: ValueId, t: usize, e: usize)
    requires
        b < old(func)@.blocks.len(),
    ensures
        final(func)@ == ended(old(func)@, b, branch(cond, t, e)),
        final(func)@.blocks.len() == old(func)@.blocks.len(),
        final(func)@.values.len() == old(func)@.values.len(),
{
    reveal(ended);
    func.set_terminator(
        BlockId(b),
        Terminator::Branch { cond, then_target: BlockId(t), else_target: BlockId(e) },
    );
}

pub fn end_jump(func: &mut Function, b: usize, t: usize)
    requires
        b < old(func)@.blocks.len(),
    ensures
        final(func)@ == ended(old(func)@, b, Terminator::Jump(BlockId(t))),
        final(func)@.blocks.len() == old(func)@.blocks.len(),
        final(func)@.values.len() == old(func)@.values.len(),
{
    reveal(ended);
    func.set_terminator(BlockId(b), Terminator::Jump(BlockId(t)));
}

/// Sets the terminator of a block.
pub fn end_with(func: &mut Function, b: usize, t: Terminator)
    requires
        b < old(func)@.blocks.len(),
    ensures
        final(func)@ == ended(old(func)@, b, t),
        final(func)@.blocks.len() == old(func)@.blocks.len(),
        final(func)@.values.len() == old(func)@.values.len(),
{
    reveal(ended);
    func.set_terminator(BlockId(b), t);
}

pub fn end_return(func: &mut Function, b: usize, v: ValueId)
    requires
        b < old(func)@.blocks.len(),
    ensures
        final(func)@ == ended(old(func)@, b, Terminator::Return(Some(v))),
        final(func)@.blocks.len() == old(func)@.blocks.len(),
        final(func)@.values.len() == old(func)@.values.len(),
{
    reveal(ended);
    func.set_terminator(BlockId(b), Terminator::Return(Some(v)));
}

/// The function with the incoming list of the phi set.
#[verifier::opaque]
pub open spec fn phi_set(f: FuncView, v: ValueId, incomings: Seq<(BlockId, ValueId)>) -> FuncView {
    if f.has_value(v) {
        match f.value(v).kind {
            ValueKindView::Inst(b, i) => if f.has_inst(b, i as int) {
                f.with_inst(b, i as int, InstView { kind: phi(incomings), ..f.inst(b, i as int) })
            } else {
                f
            },
            _ => f,
        }
    } else {
        f
    }
}

pub fn set_phi(func: &mut Function, v: ValueId, incomings: Vec<(BlockId, ValueId)>)
    ensures
        final(func)@ == phi_set(old(func)@, v, incomings@),
        final(func)@.blocks.len() == old(func)@.blocks.len(),
        final(func)@.values.len() == old(func)@.values.len(),
{
    reveal(phi_set);
    if v.0 < func.values.len() {
        assert(func@.value(v) == func.values@[v.0 as int]@);
        if let ValueKind::Inst(b, i) = func.values[v.0].kind {
            if b.0 < func.blocks.len() && i < func.blocks[b.0].insts.len() {
                assert(func.blocks@[b.0 as int].insts@[i as int]@ == func@.inst(b, i as int));
                let result = func.blocks[b.0].insts[i].result;
                func.set_inst(b, i, Inst { result, kind: InstKind::Phi { incomings } });
            }
        }
    }
}

/// The function with blocks of the given names, from name `k` on.
pub open spec fn blocks_named(f: FuncView, names: Seq<Seq<char>>, k: int) -> FuncView
    decreases names.len() - k,
{
    if k < 0 || k >= names.len() {
        f
    } else {
        blocks_named(f.add_block(names[k]), names, k + 1)
    }
}

pub open spec fn texts(names: Seq<&'static str>) -> Seq<Seq<char>> {
    names.map_values(|s: &'static str| s@)
}

/// Adds blocks of the given names.
pub fn add_named_blocks(func: &mut Function, names: &Vec<&'static str>)
    ensures
        final(func)@ == blocks_named(old(func)@, texts(names@), 0),
        final(func)@.blocks.len() == old(func)@.blocks.len() + names.len(),
{
    let ghost f = func@;
    let n = names.len();
    let ghost list = texts(names@);
    assert(list.len() == n);
    for k in 0..n
        invariant
            n == names.len(),
            list == texts(names@),
            list.len() == n,
            blocks_named(func@, list, k as int) == blocks_named(f, list, 0),
            func@.blocks.len() == f.blocks.len() + k,
    {
        assert(list[k as int] == names@[k as int]@);
        func.add_block(names[k]);
    }
}

/// The function with an empty block.
#[verifier::opaque]
pub open spec fn block_added(f: FuncView, name: Seq<char>) -> FuncView {
    f.add_block(name)
}

/// Adds an empty block and returns its number.
pub fn new_block(func: &mut Function, name: &str) -> (r: usize)
    ensures
        final(func)@ == block_added(old(func)@, name@),
        BlockId(r) == old(func)@.next_block(),
        r == old(func)@.blocks.len(),
        final(func)@.blocks.len() == old(func)@.blocks.len() + 1,
        final(func)@.values == old(func)@.values,
{
    reveal(block_added);
    assert(func.blocks.len() == func@.blocks.len());
    func.add_block(name).0
}

/// The function with an instruction that defines a value before place `i` of
/// block `b`.
#[verifier::opaque]
pub open spec fn inserted(f: FuncView, b: usize, i: int, kind: KindView, ty: Type) -> FuncView {
    f.insert(BlockId(b), i, kind, Some(ty))
}

/// Inserts an instruction that defines a value.
pub fn insert(func: &mut Function, b: usize, i: usize, kind: InstKind, ty: Type) -> (r: ValueId)
    requires
        b < old(func)@.blocks.len(),
        i <= old(func)@.blocks[b as int].insts.len(),
    ensures
        final(func)@ == inserted(old(func)@, b, i as int, kind@, ty),
        r == old(func)@.next_value(),
        final(func)@.blocks.len() == old(func)@.blocks.len(),
        final(func)@.values.len() == old(func)@.values.len() + 1,
        final(func)@.blocks[b as int].insts.len() == old(func)@.blocks[b as int].insts.len() + 1,
{
    reveal(inserted);
    let r = func.insert_inst(BlockId(b), i, kind, Some(ty));
    match r {
        Some(v) => v,
        None => ValueId(0),
    }
}

/// The function with other instructions in block `b`.
#[verifier::opaque]
pub open spec fn refilled(f: FuncView, b: usize, insts: Seq<InstView>) -> FuncView {
    f.with_insts(BlockId(b), insts)
}

/// Replaces the instructions of a block.
pub fn refill(func: &mut Function, b: usize, insts: Vec<Inst>)
    requires
        b < old(func)@.blocks.len(),
    ensures
        final(func)@ == refilled(old(func)@, b, ir::insts_view(insts@)),
        final(func)@.blocks.len() == old(func)@.blocks.len(),
        final(func)@.values == old(func)@.values,
        final(func)@.block(BlockId(b)).insts == ir::insts_view(insts@),
        forall|c: int|
            0 <= c < old(func)@.blocks.len() && c != b ==> #[trigger] final(func)@.blocks[c]
                == old(func)@.blocks[c],
        final(func)@.blocks[b as int].terminator == old(func)@.blocks[b as int].terminator,
{
    reveal(refilled);
    func.set_insts(BlockId(b), insts);
}

/// The function with a value defined at another place.
#[verifier::opaque]
pub open spec fn placed(f: FuncView, v: ValueId, b: usize, i: usize) -> FuncView {
    if f.has_value(v) {
        f.with_value_kind(v, ValueKindView::Inst(BlockId(b), i))
    } else {
        f
    }
}

/// Records where a value is defined.
pub fn place(func: &mut Function, v: ValueId, b: usize, i: usize)
    ensures
        final(func)@ == placed(old(func)@, v, b, i),
        final(func)@.blocks == old(func)@.blocks,
        final(func)@.values.len() == old(func)@.values.len(),
{
    reveal(placed);
    let ghost f = func@;
    if v.0 < func.values.len() {
        func.values[v.0].kind = ValueKind::Inst(BlockId(b), i);
        assert(func@.values =~= f.with_value_kind(
            v,
            ValueKindView::Inst(BlockId(b), i),
        ).values);
    }
}

/// The function with one more entry in the incoming list of the phi.
#[verifier::opaque]
pub open spec fn phi_extended(f: FuncView, v: ValueId, entry: (BlockId, ValueId)) -> FuncView {
    match util::def_kind(f, v) {
        Some(KindView::Phi { incomings }) => phi_set(f, v, incomings.push(entry)),
        _ => f,
    }
}

/// Adds an entry to the incoming list of a phi.
pub fn extend_phi(func: &mut Function, v: ValueId, entry: (BlockId, ValueId))
    ensures
        final(func)@ == phi_extended(old(func)@, v, entry),
        final(func)@.blocks.len() == old(func)@.blocks.len(),
        final(func)@.values.len() == old(func)@.values.len(),
{
    reveal(phi_extended);
    let list = match defining_inst(func, v) {
        Some(InstKind::Phi { incomings }) => {
            let mut list = ir::clone_incomings(incomings);
            list.push(entry);
            list
        },
        _ => return ,
    };
    set_phi(func, v, list);
}

} // verus!
