//! Divisions of small numbers by large ones.
use vstd::prelude::*;

use crate::edit;
use crate::ir::{BinaryOp, BlockId, Const, FuncView, Function, InstKind, KindView, ValueId};
use crate::query;
use crate::util;
use crate::util::{const_i32, defining_inst, get_or_add_i32_const, rewrite_function_uses, ValueMap};

verus! {

/// The least and the greatest number that a value can be.
#[derive(Clone, Copy, PartialEq, Eq, Structural)]
pub struct Range {
    pub min: i64,
    pub max: i64,
}

// ---------------------------------------------------------------------------
// Mathematical model: ranges
// ---------------------------------------------------------------------------

pub open spec fn size_of(d: int) -> int {
    if d < 0 {
        -d
    } else {
        d
    }
}

/// The range of a value that its own definition tells.
pub open spec fn range_of(f: FuncView, v: ValueId) -> Option<Range> {
    match util::const_i32_of(f, v) {
        Some(c) => Some(Range { min: c as i64, max: c as i64 }),
        None => match util::def_kind(f, v) {
            Some(KindView::Binary { op: BinaryOp::Imod, rhs, .. }) => match util::const_i32_of(
                f,
                rhs,
            ) {
                Some(d) => if d == 0 {
                    None
                } else {
                    Some(
                        Range {
                            min: (1 - size_of(d as int)) as i64,
                            max: (size_of(d as int) - 1) as i64,
                        },
                    )
                },
                None => None,
            },
            Some(KindView::Binary { op: BinaryOp::Iand, lhs, rhs }) => match util::const_i32_of(
                f,
                rhs,
            ) {
                Some(mask) => if mask >= 0 {
                    Some(Range { min: 0, max: mask as i64 })
                } else {
                    None
                },
                None => match util::const_i32_of(f, lhs) {
                    Some(mask) => if mask >= 0 {
                        Some(Range { min: 0, max: mask as i64 })
                    } else {
                        None
                    },
                    None => None,
                },
            },
            _ => None,
        },
    }
}

/// The ranges of all values.
pub open spec fn ranges_of(f: FuncView) -> Seq<Option<Range>> {
    Seq::new(f.values.len(), |v: int| range_of(f, ValueId(v as usize)))
}

// ---------------------------------------------------------------------------
// Mathematical model: divisions
// ---------------------------------------------------------------------------

/// The division is one of a number that is smaller than the divisor.
pub open spec fn is_small(f: FuncView, ranges: Seq<Option<Range>>, lhs: ValueId, rhs: ValueId) -> bool {
    match (util::const_i32_of(f, rhs), ranges[lhs.0 as int]) {
        (Some(d), Some(range)) => d != 0 && -size_of(d as int) < range.min && range.max < size_of(
            d as int,
        ),
        _ => false,
    }
}

/// A division that needs none.
#[derive(Clone, Copy, PartialEq, Eq, Structural)]
pub struct Removal {
    pub block: BlockId,
    pub index: usize,
    pub result: ValueId,
    /// What a remainder is; a quotient is zero.
    pub rest: Option<ValueId>,
}

/// The division of an instruction, if it needs none.
pub open spec fn removal_at(f: FuncView, ranges: Seq<Option<Range>>, b: BlockId, i: int) -> Option<
    Removal,
> {
    match (f.inst(b, i).result, f.inst(b, i).kind) {
        (Some(result), KindView::Binary { op, lhs, rhs }) => if (op is Idiv || op is Imod)
            && is_small(f, ranges, lhs, rhs) {
            Some(
                Removal {
                    block: b,
                    index: i as usize,
                    result,
                    rest: if op is Imod {
                        Some(lhs)
                    } else {
                        None
                    },
                },
            )
        } else {
            None
        },
        _ => None,
    }
}

pub open spec fn block_removals(f: FuncView, ranges: Seq<Option<Range>>, b: BlockId, n: int) -> Seq<
    Removal,
>
    decreases n,
{
    if n <= 0 {
        Seq::empty()
    } else {
        match removal_at(f, ranges, b, n - 1) {
            Some(r) => block_removals(f, ranges, b, n - 1).push(r),
            None => block_removals(f, ranges, b, n - 1),
        }
    }
}

pub open spec fn removals_below(f: FuncView, ranges: Seq<Option<Range>>, n: int) -> Seq<Removal>
    decreases n,
{
    if n <= 0 {
        Seq::empty()
    } else {
        let b = BlockId((n - 1) as usize);
        removals_below(f, ranges, n - 1) + block_removals(
            f,
            ranges,
            b,
            f.block(b).insts.len() as int,
        )
    }
}

/// The divisions that need none.
pub open spec fn removals_of(f: FuncView, ranges: Seq<Option<Range>>) -> Seq<Removal> {
    removals_below(f, ranges, f.blocks.len() as int)
}

/// What stands for the remainders among the first `k` divisions.
pub open spec fn rests_mapped(list: Seq<Removal>, k: int) -> Map<ValueId, ValueId>
    decreases k,
{
    if k <= 0 {
        Map::empty()
    } else {
        match list[k - 1].rest {
            Some(v) => rests_mapped(list, k - 1).insert(list[k - 1].result, v),
            None => rests_mapped(list, k - 1),
        }
    }
}

/// The map with zero for the quotients among the first `k` divisions.
pub open spec fn zeros_mapped(
    list: Seq<Removal>,
    map: Map<ValueId, ValueId>,
    zero: ValueId,
    k: int,
) -> Map<ValueId, ValueId>
    decreases k,
{
    if k <= 0 {
        map
    } else {
        match list[k - 1].rest {
            Some(_) => zeros_mapped(list, map, zero, k - 1),
            None => zeros_mapped(list, map, zero, k - 1).insert(list[k - 1].result, zero),
        }
    }
}

/// Some division is a quotient.
pub open spec fn has_quotient(list: Seq<Removal>) -> bool {
    exists|k: int| 0 <= k < list.len() && (#[trigger] list[k]).rest is None
}

/// The function without the first `k` divisions.
pub open spec fn removed_below(f: FuncView, list: Seq<Removal>, k: int) -> FuncView
    decreases k,
{
    if k <= 0 {
        f
    } else {
        removed_below(f, list, k - 1).with_inst(
            list[k - 1].block,
            list[k - 1].index as int,
            edit::nop(),
        )
    }
}

/// The function with the divisions of small numbers replaced by their results.
pub open spec fn divisions_replaced(f: FuncView, ranges: Seq<Option<Range>>) -> FuncView {
    let list = removals_of(f, ranges);
    let n = list.len() as int;
    if n == 0 {
        f
    } else {
        let rests = rests_mapped(list, n);
        let (g, map) = if has_quotient(list) {
            (
                util::with_const(f, Const::Int(0)),
                zeros_mapped(list, rests, util::const_value(f, Const::Int(0)), n),
            )
        } else {
            (f, rests)
        };
        removed_below(util::map_uses(g, util::resolver(map, g.values.len())), list, n)
    }
}

// ---------------------------------------------------------------------------
// Executable functions
// ---------------------------------------------------------------------------

fn find_range(func: &Function, v: ValueId) -> (r: Option<Range>)
    ensures
        r == range_of(func@, v),
{
    if let Some(c) = const_i32(func, v) {
        return Some(Range { min: c as i64, max: c as i64 });
    }
    match defining_inst(func, v) {
        Some(InstKind::Binary { op, lhs, rhs }) => match op {
            BinaryOp::Imod => {
                let d = const_i32(func, *rhs)?;
                if d == 0 {
                    return None;
                }
                let size = if d < 0 {
                    -(d as i64)
                } else {
                    d as i64
                };
                Some(Range { min: 1 - size, max: size - 1 })
            },
            BinaryOp::Iand => {
                let mask = match const_i32(func, *rhs) {
                    Some(mask) => mask,
                    None => const_i32(func, *lhs)?,
                };
                if mask >= 0 {
                    Some(Range { min: 0, max: mask as i64 })
                } else {
                    None
                }
            },
            _ => None,
        },
        _ => None,
    }
}

pub fn collect_value_ranges(func: &Function) -> (r: Vec<Option<Range>>)
    ensures
        r@ == ranges_of(func@),
{
    let mut list: Vec<Option<Range>> = Vec::new();
    let n = func.values.len();
    assert(n == func@.values.len());
    for v in 0..n
        invariant
            n == func@.values.len(),
            list.len() == v,
            forall|j: int|
                0 <= j < v ==> #[trigger] list@[j] == range_of(func@, ValueId(j as usize)),
    {
        list.push(find_range(func, ValueId(v)));
    }
    assert(list@ =~= ranges_of(func@));
    list
}

fn small(func: &Function, ranges: &Vec<Option<Range>>, lhs: ValueId, rhs: ValueId) -> (r: bool)
    requires
        lhs.0 < ranges.len(),
    ensures
        r == is_small(func@, ranges@, lhs, rhs),
{
    match (const_i32(func, rhs), ranges[lhs.0]) {
        (Some(d), Some(range)) => {
            let size = if d < 0 {
                -(d as i64)
            } else {
                d as i64
            };
            d != 0 && -size < range.min && range.max < size
        },
        _ => false,
    }
}

fn find_removal(func: &Function, ranges: &Vec<Option<Range>>, b: BlockId, i: usize) -> (r: Option<
    Removal,
>)
    requires
        func@.wf(),
        func@.has_inst(b, i as int),
        ranges.len() == func@.values.len(),
    ensures
        r == removal_at(func@, ranges@, b, i as int),
        r matches Some(x) ==> x.block == b && x.index == i && func@.has_value(x.result),
{
    let inst = &func.blocks[b.0].insts[i];
    assert(inst@ == func@.inst(b, i as int));
    proof {
        query::lemma_inst_wf(func@, b, i as int);
    }
    let result = inst.result?;
    match &inst.kind {
        InstKind::Binary { op, lhs, rhs } => {
            let rest = match op {
                BinaryOp::Imod => Some(*lhs),
                BinaryOp::Idiv => None,
                _ => return None,
            };
            if small(func, ranges, *lhs, *rhs) {
                Some(Removal { block: b, index: i, result, rest })
            } else {
                None
            }
        },
        _ => None,
    }
}

/// The removals name instructions.
pub open spec fn removals_in(f: FuncView, list: Seq<Removal>) -> bool {
    forall|k: int|
        0 <= k < list.len() ==> f.has_inst((#[trigger] list[k]).block, list[k].index as int)
            && f.has_value(list[k].result)
}

fn collect_removals(func: &Function, ranges: &Vec<Option<Range>>) -> (r: Vec<Removal>)
    requires
        func@.wf(),
        ranges.len() == func@.values.len(),
    ensures
        r@ == removals_of(func@, ranges@),
        removals_in(func@, r@),
{
    let ghost f = func@;
    let mut found: Vec<Removal> = Vec::new();
    let n = func.blocks.len();
    assert(n == f.blocks.len());
    for b in 0..n
        invariant
            func@ == f,
            f.wf(),
            ranges.len() == f.values.len(),
            n == f.blocks.len(),
            found@ == removals_below(f, ranges@, b as int),
            removals_in(f, found@),
    {
        let ghost start = found@;
        let id = BlockId(b);
        let count = func.blocks[b].insts.len();
        assert(count == f.block(id).insts.len());
        assert(found@ =~= start + block_removals(f, ranges@, id, 0));
        for i in 0..count
            invariant
                func@ == f,
                f.wf(),
                ranges.len() == f.values.len(),
                f.has_block(id),
                count == f.block(id).insts.len(),
                found@ == start + block_removals(f, ranges@, id, i as int),
                removals_in(f, found@),
        {
            if let Some(r) = find_removal(func, ranges, id, i) {
                found.push(r);
            }
            assert(found@ =~= start + block_removals(f, ranges@, id, i + 1));
        }
    }
    found
}

fn map_rests(list: &Vec<Removal>, Ghost(f): Ghost<FuncView>) -> (r: (ValueMap, bool))
    requires
        removals_in(f, list@),
        f.values.len() <= usize::MAX,
    ensures
        r.0@ == rests_mapped(list@, list.len() as int),
        r.1 == has_quotient(list@),
{
    let mut map = ValueMap::new();
    let mut quotient = false;
    let n = list.len();
    for k in 0..n
        invariant
            n == list.len(),
            removals_in(f, list@),
            f.values.len() <= usize::MAX,
            map@ == rests_mapped(list@, k as int),
            quotient <==> exists|j: int| 0 <= j < k && (#[trigger] list@[j]).rest is None,
    {
        assert(f.has_value(list@[k as int].result));
        match list[k].rest {
            Some(v) => {
                map.insert(list[k].result, v);
            },
            None => {
                quotient = true;
            },
        }
    }
    (map, quotient)
}

fn map_zeros(list: &Vec<Removal>, map: &mut ValueMap, zero: ValueId, Ghost(f): Ghost<FuncView>)
    requires
        removals_in(f, list@),
        f.values.len() <= usize::MAX,
    ensures
        final(map)@ == zeros_mapped(list@, old(map)@, zero, list.len() as int),
{
    let ghost start = map@;
    let n = list.len();
    for k in 0..n
        invariant
            n == list.len(),
            removals_in(f, list@),
            f.values.len() <= usize::MAX,
            map@ == zeros_mapped(list@, start, zero, k as int),
    {
        assert(f.has_value(list@[k as int].result));
        if list[k].rest.is_none() {
            map.insert(list[k].result, zero);
        }
    }
}

/// Replaces the divisions of small numbers by their results.
pub fn replace_divisions(func: &mut Function, ranges: &Vec<Option<Range>>)
    requires
        old(func)@.wf(),
        ranges.len() == old(func)@.values.len(),
    ensures
        final(func)@ == divisions_replaced(old(func)@, ranges@),
{
    let ghost f = func@;
    assert(func.values.len() == f.values.len());
    let list = collect_removals(func, ranges);
    let n = list.len();
    if n == 0 {
        return ;
    }
    let (mut map, quotient) = map_rests(&list, Ghost(f));
    if quotient {
        let zero = get_or_add_i32_const(func, 0);
        map_zeros(&list, &mut map, zero, Ghost(f));
    }
    let ghost g = func@;
    assert(g.blocks == f.blocks);
    rewrite_function_uses(func, &map);
    let ghost h = func@;
    for k in 0..n
        invariant
            n == list.len(),
            removals_in(f, list@),
            func@ == removed_below(h, list@, k as int),
            func@.blocks.len() == f.blocks.len(),
            forall|b: int|
                0 <= b < f.blocks.len() ==> (#[trigger] func@.blocks[b]).insts.len()
                    == f.blocks[b].insts.len(),
    {
        let r = list[k];
        assert(f.has_inst(list@[k as int].block, list@[k as int].index as int));
        assert(func@.blocks[r.block.0 as int].insts.len() == f.blocks[r.block.0 as int].insts.len());
        func.clear_inst(r.block, r.index);
    }
}

} // verus!
