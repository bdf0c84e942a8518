//! Copying of a region: a list of blocks with all they hold.
use vstd::prelude::*;

use crate::ir;
use crate::ir::{
    BlockId, FuncView, Function, Inst, InstKind, InstView, KindView, Terminator, Value, ValueId,
    ValueKind, ValueKindView, ValueView,
};
use crate::query;
use crate::util;
use crate::util::{resolve_kind, ValueMap};

verus! {

// ---------------------------------------------------------------------------
// Mathematical model
// ---------------------------------------------------------------------------

/// The first place, from `k` on, at which the list holds the block.
pub open spec fn place(list: Seq<BlockId>, b: BlockId, k: int) -> Option<int>
    decreases list.len() - k,
{
    if k < 0 || k >= list.len() {
        None
    } else if list[k] == b {
        Some(k)
    } else {
        place(list, b, k + 1)
    }
}

/// The copy of a block: the blocks of the list are copied to the ids from
/// `base` on, the others stand for themselves.
pub open spec fn copy_of(list: Seq<BlockId>, base: nat, b: BlockId) -> BlockId {
    match place(list, b, 0) {
        Some(k) => BlockId((base + k) as usize),
        None => b,
    }
}

pub open spec fn blocks_added(f: FuncView, name: Seq<char>, n: int) -> FuncView
    decreases n,
{
    if n <= 0 {
        f
    } else {
        blocks_added(f, name, n - 1).add_block(name)
    }
}

/// The function with values for the results of the first `n` instructions of
/// block `b` of `g`, whose copy is `copy`.
pub open spec fn block_allocated(
    f: FuncView,
    map: Map<ValueId, ValueId>,
    g: FuncView,
    b: BlockId,
    copy: BlockId,
    n: int,
) -> (FuncView, Map<ValueId, ValueId>)
    decreases n,
{
    if n <= 0 {
        (f, map)
    } else {
        let (f1, map1) = block_allocated(f, map, g, b, copy, n - 1);
        match g.inst(b, n - 1).result {
            Some(r) => (
                f1.add_value(
                    ValueView {
                        name: None,
                        ty: g.value(r).ty,
                        kind: ValueKindView::Inst(copy, (n - 1) as usize),
                    },
                ),
                map1.insert(r, f1.next_value()),
            ),
            None => (f1, map1),
        }
    }
}

/// The function with values for the results of the first `n` blocks of the
/// list.
pub open spec fn allocated(
    f: FuncView,
    map: Map<ValueId, ValueId>,
    g: FuncView,
    list: Seq<BlockId>,
    base: nat,
    n: int,
) -> (FuncView, Map<ValueId, ValueId>)
    decreases n,
{
    if n <= 0 {
        (f, map)
    } else {
        let (f1, map1) = allocated(f, map, g, list, base, n - 1);
        let b = list[n - 1];
        block_allocated(
            f1,
            map1,
            g,
            b,
            BlockId((base + (n - 1)) as usize),
            g.block(b).insts.len() as int,
        )
    }
}

pub open spec fn moved_entry(list: Seq<BlockId>, base: nat) -> spec_fn((BlockId, ValueId)) -> (
    BlockId,
    ValueId,
) {
    |inc: (BlockId, ValueId)| (copy_of(list, base, inc.0), inc.1)
}

/// The copy of an operation.
pub open spec fn copied_kind(
    kind: KindView,
    list: Seq<BlockId>,
    base: nat,
    map: Map<ValueId, ValueId>,
) -> KindView {
    match util::map_kind(kind, util::resolver(map, 1)) {
        KindView::Phi { incomings } => KindView::Phi {
            incomings: incomings.map_values(moved_entry(list, base)),
        },
        k => k,
    }
}

/// The copy of an instruction.
pub open spec fn copied_inst(
    inst: InstView,
    list: Seq<BlockId>,
    base: nat,
    map: Map<ValueId, ValueId>,
) -> InstView {
    InstView {
        result: match inst.result {
            Some(r) => Some(util::resolve(map, r, 1)),
            None => None,
        },
        kind: copied_kind(inst.kind, list, base, map),
    }
}

/// The copies of the instructions of a block.
pub open spec fn copied_insts(
    insts: Seq<InstView>,
    list: Seq<BlockId>,
    base: nat,
    map: Map<ValueId, ValueId>,
) -> Seq<InstView> {
    Seq::new(insts.len(), |i: int| copied_inst(insts[i], list, base, map))
}

/// The copy of a terminator.
pub open spec fn copied_terminator(
    t: Option<Terminator>,
    list: Seq<BlockId>,
    base: nat,
    map: Map<ValueId, ValueId>,
) -> Option<Terminator> {
    match t {
        Some(Terminator::Return(Some(v))) => Some(
            Terminator::Return(Some(util::resolve(map, v, 1))),
        ),
        Some(Terminator::Jump(b)) => Some(Terminator::Jump(copy_of(list, base, b))),
        Some(Terminator::Branch { cond, then_target, else_target }) => Some(
            Terminator::Branch {
                cond: util::resolve(map, cond, 1),
                then_target: copy_of(list, base, then_target),
                else_target: copy_of(list, base, else_target),
            },
        ),
        t => t,
    }
}

/// The function with the first `n` copies filled.
pub open spec fn filled(
    f: FuncView,
    g: FuncView,
    list: Seq<BlockId>,
    base: nat,
    map: Map<ValueId, ValueId>,
    n: int,
) -> FuncView
    decreases n,
{
    if n <= 0 {
        f
    } else {
        let copy = BlockId((base + (n - 1)) as usize);
        let block = g.block(list[n - 1]);
        filled(f, g, list, base, map, n - 1).with_insts(
            copy,
            copied_insts(block.insts, list, base, map),
        ).with_terminator(copy, copied_terminator(block.terminator, list, base, map))
    }
}

/// The values that stand for those of the region in its copy.
pub open spec fn copy_map(f: FuncView, list: Seq<BlockId>, name: Seq<char>) -> Map<
    ValueId,
    ValueId,
> {
    let n = list.len() as int;
    allocated(blocks_added(f, name, n), Map::empty(), f, list, f.blocks.len(), n).1
}

/// The function with a copy of the region in blocks of the given name behind
/// its own.
pub open spec fn with_copy(f: FuncView, list: Seq<BlockId>, name: Seq<char>) -> FuncView {
    let n = list.len() as int;
    let base = f.blocks.len();
    let (f1, map) = allocated(blocks_added(f, name, n), Map::empty(), f, list, base, n);
    filled(f1, f, list, base, map, n)
}

// ---------------------------------------------------------------------------
// Executable functions
// ---------------------------------------------------------------------------

fn find_place(list: &Vec<BlockId>, b: BlockId) -> (r: Option<usize>)
    ensures
        match r {
            Some(k) => place(list@, b, 0) == Some(k as int) && k < list.len(),
            None => place(list@, b, 0) is None,
        },
{
    let n = list.len();
    for k in 0..n
        invariant
            n == list.len(),
            place(list@, b, 0) == place(list@, b, k as int),
    {
        if list[k] == b {
            return Some(k);
        }
    }
    None
}

/// The copy of a block.
pub fn copied_block(list: &Vec<BlockId>, base: usize, b: BlockId) -> (r: BlockId)
    requires
        base + list.len() <= usize::MAX,
    ensures
        r == copy_of(list@, base as nat, b),
{
    match find_place(list, b) {
        Some(k) => BlockId(base + k),
        None => b,
    }
}

fn add_blocks(func: &mut Function, name: &str, n: usize)
    ensures
        final(func)@ == blocks_added(old(func)@, name@, n as int),
        final(func)@.blocks.len() == old(func)@.blocks.len() + n,
        final(func)@.values == old(func)@.values,
{
    let ghost f = func@;
    for k in 0..n
        invariant
            func@ == blocks_added(f, name@, k as int),
            func@.blocks.len() == f.blocks.len() + k,
            func@.values == f.values,
    {
        func.add_block(name);
    }
}

#[verifier::loop_isolation(false)]
fn allocate_results(func: &mut Function, source: &Function, list: &Vec<BlockId>, base: usize) -> (r:
    ValueMap)
    requires
        source@.wf(),
        base + list.len() <= usize::MAX,
        forall|k: int| 0 <= k < list.len() ==> source@.has_block(#[trigger] list@[k]),
    ensures
        (final(func)@, r@) == allocated(
            old(func)@,
            Map::empty(),
            source@,
            list@,
            base as nat,
            list.len() as int,
        ),
        final(func)@.blocks == old(func)@.blocks,
        final(func)@.values.len() >= old(func)@.values.len(),
{
    let ghost f = func@;
    let ghost g = source@;
    let n = list.len();
    let mut map = ValueMap::new();
    for x in 0..n
        invariant
            (func@, map@) == allocated(f, Map::empty(), g, list@, base as nat, x as int),
            func@.blocks == f.blocks,
            func@.values.len() >= f.values.len(),
    {
        let b = list[x];
        assert(g.has_block(list@[x as int]));
        let copy = BlockId(base + x);
        let m = source.blocks[b.0].insts.len();
        let ghost f1 = func@;
        let ghost map1 = map@;
        for i in 0..m
            invariant
                m == g.block(b).insts.len(),
                (func@, map@) == block_allocated(f1, map1, g, b, copy, i as int),
                func@.blocks == f.blocks,
                func@.values.len() >= f.values.len(),
        {
            let inst = &source.blocks[b.0].insts[i];
            assert(inst@ == g.inst(b, i as int));
            proof {
                query::lemma_inst_wf(g, b, i as int);
                assert(source.values.len() == g.values.len());
            }
            if let Some(r) = inst.result {
                let ty = source.values[r.0].ty.clone();
                let w = func.push_value(Value { name: None, ty, kind: ValueKind::Inst(copy, i) });
                map.insert(r, w);
            }
        }
    }
    map
}

fn move_entries(incomings: &Vec<(BlockId, ValueId)>, list: &Vec<BlockId>, base: usize) -> (r: Vec<
    (BlockId, ValueId),
>)
    requires
        base + list.len() <= usize::MAX,
    ensures
        r@ == incomings@.map_values(moved_entry(list@, base as nat)),
{
    let n = incomings.len();
    let mut r: Vec<(BlockId, ValueId)> = Vec::new();
    for k in 0..n
        invariant
            n == incomings.len(),
            base + list.len() <= usize::MAX,
            r.len() == k,
            forall|j: int|
                0 <= j < k ==> #[trigger] r@[j] == moved_entry(list@, base as nat)(incomings@[j]),
    {
        r.push((copied_block(list, base, incomings[k].0), incomings[k].1));
    }
    assert(r@ =~= incomings@.map_values(moved_entry(list@, base as nat)));
    r
}

/// The copy of an operation.
pub fn copy_kind(kind: &InstKind, list: &Vec<BlockId>, base: usize, map: &ValueMap) -> (r: InstKind)
    requires
        base + list.len() <= usize::MAX,
    ensures
        r@ == copied_kind(kind@, list@, base as nat, map@),
{
    match resolve_kind(kind, map, 1) {
        InstKind::Phi { incomings } => InstKind::Phi {
            incomings: move_entries(&incomings, list, base),
        },
        k => k,
    }
}

fn copy_insts(source: &Function, b: BlockId, list: &Vec<BlockId>, base: usize, map: &ValueMap) -> (r:
    Vec<Inst>)
    requires
        source@.has_block(b),
        base + list.len() <= usize::MAX,
    ensures
        ir::insts_view(r@) == copied_insts(source@.block(b).insts, list@, base as nat, map@),
{
    let ghost insts = source@.block(b).insts;
    let n = source.blocks[b.0].insts.len();
    let mut r: Vec<Inst> = Vec::new();
    for i in 0..n
        invariant
            source@.has_block(b),
            base + list.len() <= usize::MAX,
            insts == source@.block(b).insts,
            n == insts.len(),
            r.len() == i,
            forall|j: int|
                0 <= j < i ==> #[trigger] r@[j]@ == copied_inst(insts[j], list@, base as nat, map@),
    {
        let inst = &source.blocks[b.0].insts[i];
        assert(inst@ == insts[i as int]);
        let result = match inst.result {
            Some(v) => Some(map.resolve(v, 1)),
            None => None,
        };
        r.push(Inst { result, kind: copy_kind(&inst.kind, list, base, map) });
    }
    assert(ir::insts_view(r@) =~= copied_insts(insts, list@, base as nat, map@));
    r
}

/// The copy of a terminator.
pub fn copy_terminator(
    t: &Option<Terminator>,
    list: &Vec<BlockId>,
    base: usize,
    map: &ValueMap,
) -> (r: Option<Terminator>)
    requires
        base + list.len() <= usize::MAX,
    ensures
        r == copied_terminator(*t, list@, base as nat, map@),
{
    match t {
        Some(Terminator::Return(Some(v))) => Some(Terminator::Return(Some(map.resolve(*v, 1)))),
        Some(Terminator::Jump(b)) => Some(Terminator::Jump(copied_block(list, base, *b))),
        Some(Terminator::Branch { cond, then_target, else_target }) => Some(
            Terminator::Branch {
                cond: map.resolve(*cond, 1),
                then_target: copied_block(list, base, *then_target),
                else_target: copied_block(list, base, *else_target),
            },
        ),
        t => *t,
    }
}

/// Copies the region into new blocks of the given name and returns the values
/// that stand for its values.
#[verifier::loop_isolation(false)]
pub fn copy_region(func: &mut Function, list: &Vec<BlockId>, name: &str) -> (r: ValueMap)
    requires
        old(func)@.wf(),
        forall|k: int| 0 <= k < list.len() ==> old(func)@.has_block(#[trigger] list@[k]),
    ensures
        final(func)@ == with_copy(old(func)@, list@, name@),
        r@ == copy_map(old(func)@, list@, name@),
        final(func)@.blocks.len() == old(func)@.blocks.len() + list.len(),
        final(func)@.values.len() >= old(func)@.values.len(),
        forall|b: int|
            0 <= b < old(func)@.blocks.len() ==> #[trigger] final(func)@.blocks[b] == old(
                func,
            )@.blocks[b],
{
    let source = func.clone();
    let ghost f = func@;
    let base = func.blocks.len();
    let n = list.len();
    add_blocks(func, name, n);
    assert(func.blocks.len() == func@.blocks.len());
    let ghost f0 = func@;
    proof {
        lemma_added_keep(f, name@, n as int);
    }
    let map = allocate_results(func, &source, list, base);
    let ghost f1 = func@;
    for x in 0..n
        invariant
            func@ == filled(f1, f, list@, base as nat, map@, x as int),
            func@.blocks.len() == base + n,
            func@.values == f1.values,
            forall|b: int| 0 <= b < base ==> #[trigger] func@.blocks[b] == f.blocks[b],
    {
        let b = list[x];
        assert(f.has_block(list@[x as int]));
        let copy = BlockId(base + x);
        let insts = copy_insts(&source, b, list, base, &map);
        let t = copy_terminator(&source.blocks[b.0].terminator, list, base, &map);
        func.set_insts(copy, insts);
        func.put_terminator(copy, t);
    }
    map
}

proof fn lemma_added_keep(f: FuncView, name: Seq<char>, n: int)
    requires
        n >= 0,
    ensures
        blocks_added(f, name, n).blocks.len() == f.blocks.len() + n,
        forall|b: int|
            0 <= b < f.blocks.len() ==> #[trigger] blocks_added(f, name, n).blocks[b]
                == f.blocks[b],
    decreases n,
{
    if n > 0 {
        lemma_added_keep(f, name, n - 1);
    }
}

proof fn lemma_block_allocated_keeps(
    f: FuncView,
    map: Map<ValueId, ValueId>,
    g: FuncView,
    b: BlockId,
    copy: BlockId,
    n: int,
)
    ensures
        block_allocated(f, map, g, b, copy, n).0.blocks == f.blocks,
    decreases n,
{
    if n > 0 {
        lemma_block_allocated_keeps(f, map, g, b, copy, n - 1);
    }
}

proof fn lemma_allocated_keeps(
    f: FuncView,
    map: Map<ValueId, ValueId>,
    g: FuncView,
    list: Seq<BlockId>,
    base: nat,
    n: int,
)
    ensures
        allocated(f, map, g, list, base, n).0.blocks == f.blocks,
    decreases n,
{
    if n > 0 {
        lemma_allocated_keeps(f, map, g, list, base, n - 1);
        let (f1, map1) = allocated(f, map, g, list, base, n - 1);
        let b = list[n - 1];
        lemma_block_allocated_keeps(
            f1,
            map1,
            g,
            b,
            BlockId((base + (n - 1)) as usize),
            g.block(b).insts.len() as int,
        );
    }
}

proof fn lemma_filled_keeps(
    f: FuncView,
    g: FuncView,
    list: Seq<BlockId>,
    base: nat,
    map: Map<ValueId, ValueId>,
    n: int,
)
    requires
        base + n <= usize::MAX,
        base + n <= f.blocks.len(),
    ensures
        filled(f, g, list, base, map, n).blocks.len() == f.blocks.len(),
        forall|b: int|
            0 <= b < base ==> #[trigger] filled(f, g, list, base, map, n).blocks[b] == f.blocks[b],
    decreases n,
{
    if n > 0 {
        lemma_filled_keeps(f, g, list, base, map, n - 1);
    }
}

/// Copying a region leaves every block as it is.
pub proof fn lemma_copy_keeps(f: FuncView, list: Seq<BlockId>, name: Seq<char>, b: BlockId)
    requires
        f.has_block(b),
        f.blocks.len() + list.len() <= usize::MAX,
    ensures
        with_copy(f, list, name).block(b) == f.block(b),
        with_copy(f, list, name).blocks.len() == f.blocks.len() + list.len(),
{
    let n = list.len() as int;
    let base = f.blocks.len();
    let f0 = blocks_added(f, name, n);
    lemma_added_keep(f, name, n);
    lemma_allocated_keeps(f0, Map::empty(), f, list, base, n);
    let (f1, map) = allocated(f0, Map::empty(), f, list, base, n);
    lemma_filled_keeps(f1, f, list, base, map, n);
}

} // verus!
