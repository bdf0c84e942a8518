//! Divisions by powers of two of numbers that are known to be multiples.
use vstd::prelude::*;

use crate::bits;
use crate::bits::power_of_two_shift;
use crate::cfg;
use crate::cfg::{ControlFlowGraph, Dominators};
use crate::ir::{
    BinaryOp, BlockId, CompareOp, Const, FuncView, Function, Inst, InstKind, InstView, KindView,
    ValueId,
};
use crate::pass::range_integer::conditions;
use crate::pass::range_integer::conditions::has_sole_entry;
use crate::patterns;
use crate::patterns::{as_binary, as_branch, as_compare};
use crate::query;
use crate::query::dominates_in;
use crate::util;
use crate::util::{const_i32, get_or_add_i32_const};

verus! {

pub const MAX_BLOCKS: usize = 4096;

pub const MAX_PROOF_WORK: usize = 262144;

/// Bits of a value that are zero wherever a block has been passed.
#[derive(Clone, Copy, PartialEq, Eq, Structural)]
pub struct ZeroBits {
    pub region: BlockId,
    pub value: ValueId,
    pub mask: u32,
}

/// A division to rewrite.
#[derive(Clone, Copy, PartialEq, Eq, Structural)]
pub struct Rewrite {
    pub block: BlockId,
    pub index: usize,
    pub lhs: ValueId,
    pub shift: u32,
}

// ---------------------------------------------------------------------------
// Mathematical model
// ---------------------------------------------------------------------------

/// The value that the condition compares with zero, and whether it is zero where
/// the condition holds.
pub open spec fn zero_test_of(f: FuncView, cond: ValueId) -> Option<(ValueId, bool)> {
    match patterns::compare_of(f, cond) {
        Some((op, lhs, rhs)) => if op is Eq || op is Ne {
            if util::const_i32_of(f, rhs) == Some(0i32) {
                Some((lhs, op is Eq))
            } else if util::const_i32_of(f, lhs) == Some(0i32) {
                Some((rhs, op is Eq))
            } else {
                None
            }
        } else {
            None
        },
        None => None,
    }
}

/// The exponent of a divisor above one.
pub open spec fn divisor_shift(d: i32) -> Option<u32> {
    if d > 1 {
        bits::shift_of(d as int)
    } else {
        None
    }
}

/// The value whose low bits are zero where the given one is, and which bits.
pub open spec fn low_zero_bits_of(f: FuncView, v: ValueId) -> Option<(ValueId, u32)> {
    match patterns::binary_of(f, v) {
        Some((BinaryOp::Iand, lhs, rhs)) => match util::const_i32_of(f, rhs) {
            Some(mask) => Some((lhs, mask as u32)),
            None => match util::const_i32_of(f, lhs) {
                Some(mask) => Some((rhs, mask as u32)),
                None => None,
            },
        },
        Some((BinaryOp::Imod, lhs, rhs)) => match util::const_i32_of(f, rhs) {
            Some(d) => if divisor_shift(d) is Some {
                Some((lhs, (d - 1) as u32))
            } else {
                None
            },
            None => None,
        },
        _ => None,
    }
}

/// What the branch of a block says of low bits: it holds in the taken target,
/// where nothing else leads there.
pub open spec fn zero_bits_at(f: FuncView, b: BlockId) -> Option<ZeroBits> {
    match patterns::branch_of(f, b) {
        Some((cond, t, e)) => match zero_test_of(f, cond) {
            Some((v, zero_on_true)) => match low_zero_bits_of(f, v) {
                Some((value, mask)) => {
                    let region = if zero_on_true {
                        t
                    } else {
                        e
                    };
                    if t != e && conditions::is_sole_entry(f, b, region) {
                        Some(ZeroBits { region, value, mask })
                    } else {
                        None
                    }
                },
                None => None,
            },
            None => None,
        },
        None => None,
    }
}

pub open spec fn zero_bits_below(f: FuncView, n: int) -> Seq<ZeroBits>
    decreases n,
{
    if n <= 0 {
        Seq::empty()
    } else {
        match zero_bits_at(f, BlockId((n - 1) as usize)) {
            Some(z) => zero_bits_below(f, n - 1).push(z),
            None => zero_bits_below(f, n - 1),
        }
    }
}

pub open spec fn zero_bits_of(f: FuncView) -> Seq<ZeroBits> {
    zero_bits_below(f, f.blocks.len() as int)
}

/// The low bits of the value are known to be zero at the block.
pub open spec fn are_zero(f: FuncView, list: Seq<ZeroBits>, b: BlockId, v: ValueId, mask: u32) -> bool {
    exists|k: int|
        0 <= k < list.len() && (#[trigger] list[k]).value == v && list[k].mask & mask == mask
            && cfg::dominates(f, list[k].region, b)
}

/// The division of an instruction, if it can be a shift.
pub open spec fn rewrite_at(f: FuncView, list: Seq<ZeroBits>, b: BlockId, i: int) -> Option<Rewrite> {
    match f.inst(b, i).kind {
        KindView::Binary { op: BinaryOp::Idiv, lhs, rhs } => match util::const_i32_of(f, rhs) {
            Some(d) => match divisor_shift(d) {
                Some(shift) => if are_zero(f, list, b, lhs, (d - 1) as u32) {
                    Some(Rewrite { block: b, index: i as usize, lhs, shift })
                } else {
                    None
                },
                None => None,
            },
            None => None,
        },
        _ => None,
    }
}

/// The divisions of the first `n` instructions of a block that can be shifts.
pub open spec fn block_rewrites(f: FuncView, list: Seq<ZeroBits>, b: BlockId, n: int) -> Seq<Rewrite>
    decreases n,
{
    if n <= 0 {
        Seq::empty()
    } else {
        match rewrite_at(f, list, b, n - 1) {
            Some(r) => block_rewrites(f, list, b, n - 1).push(r),
            None => block_rewrites(f, list, b, n - 1),
        }
    }
}

pub open spec fn rewrites_below(f: FuncView, list: Seq<ZeroBits>, n: int) -> Seq<Rewrite>
    decreases n,
{
    if n <= 0 {
        Seq::empty()
    } else {
        let b = BlockId((n - 1) as usize);
        rewrites_below(f, list, n - 1) + block_rewrites(
            f,
            list,
            b,
            f.block(b).insts.len() as int,
        )
    }
}

/// The function with the first `k` divisions made shifts.
pub open spec fn shifted_below(f: FuncView, list: Seq<Rewrite>, k: int) -> FuncView
    decreases k,
{
    if k <= 0 {
        f
    } else {
        let before = shifted_below(f, list, k - 1);
        let r = list[k - 1];
        let rhs = util::const_value(before, Const::Int(r.shift as i32));
        let g = util::with_const(before, Const::Int(r.shift as i32));
        g.with_inst(
            r.block,
            r.index as int,
            InstView {
                result: g.inst(r.block, r.index as int).result,
                kind: KindView::Binary { op: BinaryOp::Iashr, lhs: r.lhs, rhs },
            },
        )
    }
}

/// The function with the divisions of multiples made shifts.
pub open spec fn divisions_reduced(f: FuncView) -> FuncView {
    let list = zero_bits_of(f);
    if f.blocks.len() > MAX_BLOCKS || list.len() * f.blocks.len() > MAX_PROOF_WORK {
        f
    } else {
        let rewrites = rewrites_below(f, list, f.blocks.len() as int);
        shifted_below(f, rewrites, rewrites.len() as int)
    }
}

// ---------------------------------------------------------------------------
// Executable functions
// ---------------------------------------------------------------------------

fn zero_test(func: &Function, cond: ValueId) -> (r: Option<(ValueId, bool)>)
    ensures
        r == zero_test_of(func@, cond),
{
    let (op, lhs, rhs) = as_compare(func, cond)?;
    let equal = match op {
        CompareOp::Eq => true,
        CompareOp::Ne => false,
        _ => return None,
    };
    if let Some(c) = const_i32(func, rhs) {
        if c == 0 {
            return Some((lhs, equal));
        }
    }
    if let Some(c) = const_i32(func, lhs) {
        if c == 0 {
            return Some((rhs, equal));
        }
    }
    None
}

fn find_divisor_shift(d: i32) -> (r: Option<u32>)
    ensures
        r == divisor_shift(d),
        r matches Some(s) ==> s <= 30,
{
    if d > 1 {
        power_of_two_shift(d)
    } else {
        None
    }
}

fn low_zero_mask(func: &Function, v: ValueId) -> (r: Option<(ValueId, u32)>)
    ensures
        r == low_zero_bits_of(func@, v),
{
    let (op, lhs, rhs) = as_binary(func, v)?;
    match op {
        BinaryOp::Iand => match const_i32(func, rhs) {
            Some(mask) => Some((lhs, mask as u32)),
            None => match const_i32(func, lhs) {
                Some(mask) => Some((rhs, mask as u32)),
                None => None,
            },
        },
        BinaryOp::Imod => {
            let d = const_i32(func, rhs)?;
            let _shift = find_divisor_shift(d)?;
            Some((lhs, (d - 1) as u32))
        },
        _ => None,
    }
}

fn find_zero_bits(func: &Function, graph: &ControlFlowGraph, b: BlockId) -> (r: Option<ZeroBits>)
    requires
        func@.wf(),
        graph.of(func@),
        func@.has_block(b),
    ensures
        r == zero_bits_at(func@, b),
        r matches Some(z) ==> func@.has_block(z.region),
{
    let (cond, t, e) = as_branch(func, b)?;
    proof {
        query::lemma_terminator_wf(func@, b);
    }
    let (v, zero_on_true) = zero_test(func, cond)?;
    let (value, mask) = low_zero_mask(func, v)?;
    let region = if zero_on_true {
        t
    } else {
        e
    };
    if t != e && has_sole_entry(func, graph, b, region) {
        Some(ZeroBits { region, value, mask })
    } else {
        None
    }
}

fn collect_zero_bits(func: &Function, graph: &ControlFlowGraph) -> (r: Vec<ZeroBits>)
    requires
        func@.wf(),
        graph.of(func@),
    ensures
        r@ == zero_bits_of(func@),
        r.len() <= func@.blocks.len(),
        forall|k: int| 0 <= k < r.len() ==> func@.has_block((#[trigger] r@[k]).region),
{
    let ghost f = func@;
    let mut list: Vec<ZeroBits> = Vec::new();
    let n = func.blocks.len();
    assert(n == f.blocks.len());
    for b in 0..n
        invariant
            func@ == f,
            f.wf(),
            graph.of(f),
            n == f.blocks.len(),
            list.len() <= b,
            list@ == zero_bits_below(f, b as int),
            forall|k: int| 0 <= k < list.len() ==> f.has_block((#[trigger] list@[k]).region),
    {
        if let Some(z) = find_zero_bits(func, graph, BlockId(b)) {
            list.push(z);
        }
    }
    list
}

fn bits_are_zero(
    func: &Function,
    dom: &Dominators,
    list: &Vec<ZeroBits>,
    b: BlockId,
    v: ValueId,
    mask: u32,
) -> (r: bool)
    requires
        func@.wf(),
        dom.of(func@),
        func@.has_block(b),
        forall|k: int| 0 <= k < list.len() ==> func@.has_block((#[trigger] list@[k]).region),
    ensures
        r == are_zero(func@, list@, b, v, mask),
{
    let n = list.len();
    for k in 0..n
        invariant
            func@.wf(),
            dom.of(func@),
            func@.has_block(b),
            n == list.len(),
            forall|k: int| 0 <= k < list.len() ==> func@.has_block((#[trigger] list@[k]).region),
            forall|j: int|
                0 <= j < k ==> !((#[trigger] list@[j]).value == v && list@[j].mask & mask == mask
                    && cfg::dominates(func@, list@[j].region, b)),
    {
        let z = list[k];
        assert(func@.has_block(list@[k as int].region));
        if z.value == v && z.mask & mask == mask && dominates_in(func, dom, z.region, b) {
            return true;
        }
    }
    false
}

fn find_rewrite(
    func: &Function,
    dom: &Dominators,
    list: &Vec<ZeroBits>,
    b: BlockId,
    i: usize,
) -> (r: Option<Rewrite>)
    requires
        func@.wf(),
        dom.of(func@),
        func@.has_inst(b, i as int),
        forall|k: int| 0 <= k < list.len() ==> func@.has_block((#[trigger] list@[k]).region),
    ensures
        r == rewrite_at(func@, list@, b, i as int),
        r matches Some(x) ==> x.block == b && x.index == i && x.shift <= 30,
{
    let inst = &func.blocks[b.0].insts[i];
    assert(inst@ == func@.inst(b, i as int));
    match &inst.kind {
        InstKind::Binary { op, lhs, rhs } => match op {
            BinaryOp::Idiv => {
                let d = const_i32(func, *rhs)?;
                let shift = find_divisor_shift(d)?;
                if bits_are_zero(func, dom, list, b, *lhs, (d - 1) as u32) {
                    Some(Rewrite { block: b, index: i, lhs: *lhs, shift })
                } else {
                    None
                }
            },
            _ => None,
        },
        _ => None,
    }
}

/// The rewrites name instructions.
pub open spec fn rewrites_in(f: FuncView, list: Seq<Rewrite>) -> bool {
    forall|k: int|
        0 <= k < list.len() ==> f.has_inst((#[trigger] list[k]).block, list[k].index as int)
            && list[k].shift <= 30
}

fn collect_rewrites(func: &Function, dom: &Dominators, list: &Vec<ZeroBits>) -> (r: Vec<Rewrite>)
    requires
        func@.wf(),
        dom.of(func@),
        forall|k: int| 0 <= k < list.len() ==> func@.has_block((#[trigger] list@[k]).region),
    ensures
        r@ == rewrites_below(func@, list@, func@.blocks.len() as int),
        rewrites_in(func@, r@),
{
    let ghost f = func@;
    let mut found: Vec<Rewrite> = Vec::new();
    let n = func.blocks.len();
    assert(n == f.blocks.len());
    for b in 0..n
        invariant
            func@ == f,
            f.wf(),
            dom.of(f),
            n == f.blocks.len(),
            forall|k: int| 0 <= k < list.len() ==> f.has_block((#[trigger] list@[k]).region),
            found@ == rewrites_below(f, list@, b as int),
            rewrites_in(f, found@),
    {
        let ghost start = found@;
        let id = BlockId(b);
        let count = func.blocks[b].insts.len();
        assert(count == f.block(id).insts.len());
        assert(found@ =~= start + block_rewrites(f, list@, id, 0));
        for i in 0..count
            invariant
                func@ == f,
                f.wf(),
                dom.of(f),
                f.has_block(id),
                count == f.block(id).insts.len(),
                forall|k: int| 0 <= k < list.len() ==> f.has_block((#[trigger] list@[k]).region),
                found@ == start + block_rewrites(f, list@, id, i as int),
                rewrites_in(f, found@),
        {
            if let Some(r) = find_rewrite(func, dom, list, id, i) {
                found.push(r);
            }
            assert(found@ =~= start + block_rewrites(f, list@, id, i + 1));
        }
    }
    found
}

/// Makes divisions of multiples shifts.
pub fn reduce_path_exact_power_of_two_divisions(func: &mut Function)
    requires
        old(func)@.wf(),
    ensures
        final(func)@ == divisions_reduced(old(func)@),
{
    let ghost f = func@;
    let blocks = func.blocks.len();
    assert(blocks == f.blocks.len());
    if blocks > MAX_BLOCKS {
        return ;
    }
    let graph = ControlFlowGraph::new(func);
    let dom = Dominators::new(func, &graph);
    let list = collect_zero_bits(func, &graph);
    assert(list.len() * blocks <= MAX_BLOCKS * MAX_BLOCKS) by (nonlinear_arith)
        requires
            list.len() <= blocks,
            blocks <= MAX_BLOCKS,
    ;
    if list.len() * blocks > MAX_PROOF_WORK {
        return ;
    }
    let rewrites = collect_rewrites(func, &dom, &list);
    let n = rewrites.len();
    for k in 0..n
        invariant
            n == rewrites.len(),
            rewrites_in(f, rewrites@),
            func@ == shifted_below(f, rewrites@, k as int),
            func@.blocks.len() == f.blocks.len(),
            forall|b: int|
                0 <= b < f.blocks.len() ==> (#[trigger] func@.blocks[b]).insts.len()
                    == f.blocks[b].insts.len(),
    {
        let r = rewrites[k];
        assert(f.has_inst(rewrites@[k as int].block, rewrites@[k as int].index as int));
        assert(func@.blocks[r.block.0 as int].insts.len() == f.blocks[r.block.0 as int].insts.len());
        let rhs = get_or_add_i32_const(func, r.shift as i32);
        assert(func.blocks@[r.block.0 as int]@ == func@.blocks[r.block.0 as int]);
        assert(func.blocks@[r.block.0 as int].insts@[r.index as int]@ == func@.inst(
            r.block,
            r.index as int,
        ));
        let result = func.blocks[r.block.0].insts[r.index].result;
        func.set_inst(
            r.block,
            r.index,
            Inst { result, kind: InstKind::Binary { op: BinaryOp::Iashr, lhs: r.lhs, rhs } },
        );
    }
}

} // verus!
