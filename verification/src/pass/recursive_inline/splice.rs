//! Replacing a call by a copy of the callee's blocks.
use vstd::prelude::*;

use crate::cfg;
use crate::cfg::block_successors;
use crate::edit;
use crate::ir;
use crate::ir::{
    BlockId, BlockView, FuncView, Function, Inst, InstKind, InstView, KindView, Terminator, Value,
    ValueId, ValueKind, ValueKindView, ValueView,
};
use crate::pass::recursive_inline::analyze;
use crate::pass::recursive_inline::analyze::{call_types_match, CallSite};
use crate::pass::simplify_cfg::dead_blocks;
use crate::pass::simplify_cfg::dead_blocks::{ranks, reachable_blocks};
use crate::pass::simplify_cfg::if_convert;
use crate::pass::simplify_cfg::if_convert::replace_all_uses;
use crate::pass::simplify_cfg::structural;
use crate::pass::simplify_cfg::structural::{edit_incomings, EditView, IncomingEdit};
use crate::query;
use crate::query::active_insts;
use crate::util;
use crate::util::{get_or_add_const, get_or_add_global, resolve_kind, ValueMap};
use crate::verify;

verus! {

// ---------------------------------------------------------------------------
// Splitting the block of the call
// ---------------------------------------------------------------------------

pub open spec fn moved_behind(value: ValueView, b: BlockId, at: usize, cont: BlockId) -> ValueView {
    match value.kind {
        ValueKindView::Inst(owner, i) => if owner == b && i > at {
            ValueView { kind: ValueKindView::Inst(cont, (i - (at + 1)) as usize), ..value }
        } else {
            value
        },
        _ => value,
    }
}

pub open spec fn edited_insts(insts: Seq<InstView>, change: EditView) -> Seq<InstView> {
    insts.map_values(|inst: InstView| structural::edited_inst(inst, change))
}

/// The phis of the first `n` blocks of the list take from `to` what they took
/// from `from`.
pub open spec fn retargeted(
    f: FuncView,
    list: Seq<BlockId>,
    from: BlockId,
    to: BlockId,
    n: int,
) -> FuncView
    decreases n,
{
    if n <= 0 {
        f
    } else {
        let before = retargeted(f, list, from, to, n - 1);
        let s = list[n - 1];
        before.with_insts(
            s,
            edited_insts(before.block(s).insts, EditView::Rename { from, to }),
        )
    }
}

/// Block `b` ends behind position `at`, which becomes empty; what follows
/// stands in a new block.
pub open spec fn cut(f: FuncView, b: BlockId, at: usize) -> FuncView {
    let cont = f.next_block();
    let insts = f.block(b).insts;
    let g = f.add_block("recursive.continue"@);
    FuncView {
        values: f.values.map_values(|value: ValueView| moved_behind(value, b, at, cont)),
        blocks: g.blocks.update(
            b.0 as int,
            BlockView {
                name: f.block(b).name,
                insts: insts.take(at + 1).update(at as int, edit::nop()),
                terminator: None,
            },
        ).update(
            cont.0 as int,
            BlockView {
                name: "recursive.continue"@,
                insts: insts.skip(at + 1),
                terminator: f.terminator(b),
            },
        ),
        ..g
    }
}

/// The function with block `b` split at the call at position `at`.
pub open spec fn split(f: FuncView, b: BlockId, at: usize) -> FuncView {
    let list = cfg::succ_list(f.terminator(b));
    retargeted(cut(f, b, at), list, b, f.next_block(), list.len() as int)
}

// ---------------------------------------------------------------------------
// Copying the callee
// ---------------------------------------------------------------------------

/// A copy of the callee: which of its blocks are copied, the id of the first
/// copy and the values that stand for the callee's.
pub struct CopyView {
    pub marks: Seq<bool>,
    pub base: nat,
    pub map: Map<ValueId, ValueId>,
}

impl CopyView {
    /// The copy of a block.
    pub open spec fn block(self, b: BlockId) -> BlockId {
        BlockId((self.base + dead_blocks::rank(self.marks, b.0 as int)) as usize)
    }

    /// What stands for a value.
    pub open spec fn value(self, v: ValueId) -> ValueId {
        util::resolve(self.map, v, 1)
    }
}

pub open spec fn clones_added(f: FuncView, marks: Seq<bool>, n: int) -> FuncView
    decreases n,
{
    if n <= 0 {
        f
    } else if marks[n - 1] {
        clones_added(f, marks, n - 1).add_block("recursive.inline"@)
    } else {
        clones_added(f, marks, n - 1)
    }
}

/// The first `n` parameters stand for the arguments.
pub open spec fn bound(params: Seq<ValueId>, args: Seq<ValueId>, n: int) -> Map<ValueId, ValueId>
    decreases n,
{
    if n <= 0 {
        Map::empty()
    } else {
        bound(params, args, n - 1).insert(params[n - 1], args[n - 1])
    }
}

/// The function with the constants and globals among the first `n` values of
/// `g`, and the values that stand for them.
pub open spec fn imported(f: FuncView, g: FuncView, map: Map<ValueId, ValueId>, n: int) -> (
    FuncView,
    Map<ValueId, ValueId>,
)
    decreases n,
{
    if n <= 0 {
        (f, map)
    } else {
        let (f1, map1) = imported(f, g, map, n - 1);
        let id = ValueId((n - 1) as usize);
        match g.values[n - 1].kind {
            ValueKindView::Const(c) => (
                util::with_const(f1, c),
                map1.insert(id, util::const_value(f1, c)),
            ),
            ValueKindView::Global(name) => (
                util::with_global(f1, name, g.values[n - 1].ty),
                map1.insert(id, util::global_value(f1, name, g.values[n - 1].ty)),
            ),
            _ => (f1, map1),
        }
    }
}

/// The function with values for the results of the first `n` operations of a
/// block of `g`, whose copy is `clone`.
pub open spec fn block_allocated(
    f: FuncView,
    g: FuncView,
    b: BlockId,
    clone: BlockId,
    map: Map<ValueId, ValueId>,
    n: int,
) -> (FuncView, Map<ValueId, ValueId>)
    decreases n,
{
    if n <= 0 {
        (f, map)
    } else {
        let (f1, map1) = block_allocated(f, g, b, clone, map, n - 1);
        match g.inst(b, query::active(g, b)[n - 1] as int).result {
            Some(r) => (
                f1.add_value(
                    ValueView {
                        name: None,
                        ty: g.value(r).ty,
                        kind: ValueKindView::Inst(clone, (n - 1) as usize),
                    },
                ),
                map1.insert(r, f1.next_value()),
            ),
            None => (f1, map1),
        }
    }
}

/// The function with values for the results of the copied blocks among the
/// first `n`.
pub open spec fn allocated(
    f: FuncView,
    g: FuncView,
    c: CopyView,
    n: int,
) -> (FuncView, Map<ValueId, ValueId>)
    decreases n,
{
    if n <= 0 {
        (f, c.map)
    } else {
        let (f1, map1) = allocated(f, g, c, n - 1);
        let b = BlockId((n - 1) as usize);
        if c.marks[n - 1] {
            block_allocated(f1, g, b, c.block(b), map1, query::active(g, b).len() as int)
        } else {
            (f1, map1)
        }
    }
}

pub open spec fn copied_entries(c: CopyView) -> spec_fn((BlockId, ValueId)) -> (BlockId, ValueId) {
    |inc: (BlockId, ValueId)| (c.block(inc.0), c.value(inc.1))
}

/// The copy of an operation.
pub open spec fn copied_kind(kind: KindView, c: CopyView) -> KindView {
    match kind {
        KindView::Phi { incomings } => KindView::Phi {
            incomings: incomings.filter(dead_blocks::is_marked(c.marks)).map_values(
                copied_entries(c),
            ),
        },
        kind => util::map_kind(kind, util::resolver(c.map, 1)),
    }
}

/// The copies of the operations of a block.
pub open spec fn copied_insts(g: FuncView, b: BlockId, c: CopyView) -> Seq<InstView> {
    let list = query::active(g, b);
    Seq::new(
        list.len(),
        |k: int|
            InstView {
                result: match g.inst(b, list[k] as int).result {
                    Some(r) => Some(c.value(r)),
                    None => None,
                },
                kind: copied_kind(g.inst(b, list[k] as int).kind, c),
            },
    )
}

/// The copy of a terminator; a return continues behind the call.
pub open spec fn copied_terminator(t: Option<Terminator>, c: CopyView, cont: BlockId) -> Option<
    Terminator,
> {
    match t {
        Some(Terminator::Return(_)) => Some(Terminator::Jump(cont)),
        Some(Terminator::Jump(target)) => Some(Terminator::Jump(c.block(target))),
        Some(Terminator::Branch { cond, then_target, else_target }) => Some(
            Terminator::Branch {
                cond: c.value(cond),
                then_target: c.block(then_target),
                else_target: c.block(else_target),
            },
        ),
        None => None,
    }
}

/// The function with the copies of the marked blocks among the first `n`
/// filled in.
pub open spec fn filled(f: FuncView, g: FuncView, c: CopyView, cont: BlockId, n: int) -> FuncView
    decreases n,
{
    if n <= 0 {
        f
    } else {
        let before = filled(f, g, c, cont, n - 1);
        let b = BlockId((n - 1) as usize);
        if c.marks[n - 1] {
            before.with_insts(c.block(b), copied_insts(g, b, c)).with_terminator(
                c.block(b),
                copied_terminator(g.terminator(b), c, cont),
            )
        } else {
            before
        }
    }
}

/// What the copied returns among the first `n` blocks give back.
pub open spec fn results_below(g: FuncView, c: CopyView, n: int) -> Seq<(BlockId, ValueId)>
    decreases n,
{
    if n <= 0 {
        Seq::empty()
    } else {
        let before = results_below(g, c, n - 1);
        let b = BlockId((n - 1) as usize);
        if c.marks[n - 1] {
            match g.terminator(b) {
                Some(Terminator::Return(Some(v))) => before.push((c.block(b), c.value(v))),
                _ => before,
            }
        } else {
            before
        }
    }
}

/// The function with the call at `site` replaced by the blocks of `g`.
pub open spec fn with_copy(f: FuncView, g: FuncView, site: CallSite, args: Seq<ValueId>) -> FuncView {
    let marks = dead_blocks::live(g);
    let n = g.blocks.len() as int;
    let cont = f.next_block();
    let f1 = split(f, site.block, site.at);
    let base = f1.blocks.len();
    let f2 = clones_added(f1, marks, n);
    let (f3, map3) = imported(
        f2,
        g,
        bound(g.params, args, args.len() as int),
        g.values.len() as int,
    );
    let (f4, map) = allocated(f3, g, CopyView { marks, base, map: map3 }, n);
    let c = CopyView { marks, base, map };
    let f5 = filled(f4, g, c, cont, n).with_terminator(
        site.block,
        Some(Terminator::Jump(c.block(g.entry))),
    );
    let merged = f5.next_value();
    let f6 = f5.insert(
        cont,
        0,
        KindView::Phi { incomings: results_below(g, c, n) },
        Some(g.ret),
    );
    if_convert::replaced(f6, site.result, merged)
}

/// The arguments of the call at `site`, if the site still is such a call.
pub open spec fn call_at(f: FuncView, g: FuncView, site: CallSite) -> Option<Seq<ValueId>> {
    if f.has_inst(site.block, site.at as int) && f.inst(site.block, site.at as int).result == Some(
        site.result,
    ) {
        match f.inst(site.block, site.at as int).kind {
            KindView::Call { name: _, args } => if analyze::types_match(f, site.result, g, args) {
                Some(args)
            } else {
                None
            },
            _ => None,
        }
    } else {
        None
    }
}

/// The function with the call at `site` inlined, if that gives a valid
/// function.
pub open spec fn inlined(f: FuncView, g: FuncView, site: CallSite) -> Option<FuncView> {
    match call_at(f, g, site) {
        Some(args) => if verify::valid(with_copy(f, g, site, args)) {
            Some(with_copy(f, g, site, args))
        } else {
            None
        },
        None => None,
    }
}

// ---------------------------------------------------------------------------
// Executable splitting
// ---------------------------------------------------------------------------

/// Changes the incoming lists of all phis of a block.
fn edit_phis(func: &mut Function, b: BlockId, change: &IncomingEdit)
    requires
        old(func)@.has_block(b),
    ensures
        final(func)@ == old(func)@.with_insts(b, edited_insts(old(func)@.block(b).insts, change@)),
{
    let ghost insts = func@.block(b).insts;
    let n = func.blocks[b.0].insts.len();
    let mut list: Vec<Inst> = Vec::new();
    for i in 0..n
        invariant
            func@.has_block(b),
            insts == func@.block(b).insts,
            n == insts.len(),
            list.len() == i,
            forall|j: int| 0 <= j < i ==> #[trigger] list@[j]@ == edited_insts(insts, change@)[j],
            func@ == old(func)@,
    {
        let inst = &func.blocks[b.0].insts[i];
        assert(inst@ == insts[i as int]);
        match &inst.kind {
            InstKind::Phi { incomings } => {
                list.push(
                    Inst {
                        result: inst.result,
                        kind: InstKind::Phi { incomings: edit_incomings(incomings, change) },
                    },
                );
            },
            _ => {
                list.push(inst.clone());
            },
        }
    }
    assert(ir::insts_view(list@) =~= edited_insts(insts, change@));
    func.set_insts(b, list);
}

#[verifier::loop_isolation(false)]
fn cut_block(func: &mut Function, b: BlockId, at: usize) -> (r: BlockId)
    requires
        old(func)@.has_inst(b, at as int),
    ensures
        r == old(func)@.next_block(),
        final(func)@ == cut(old(func)@, b, at),
{
    let ghost f = func@;
    let ghost insts = f.block(b).insts;
    let cont = func.add_block("recursive.continue");
    assert(func.blocks.len() == func@.blocks.len());
    assert(func@.block(b) == f.block(b));
    let n = func.blocks[b.0].insts.len();
    let terminator = func.blocks[b.0].terminator;
    assert(func.blocks@[b.0 as int]@ == f.block(b));
    let mut head: Vec<Inst> = Vec::new();
    let mut tail: Vec<Inst> = Vec::new();
    let ghost want_head = insts.take(at + 1).update(at as int, edit::nop());
    let ghost want_tail = insts.skip(at + 1);
    for i in 0..n
        invariant
            n == insts.len(),
            func@.block(b) == f.block(b),
            func@.has_block(b),
            func.blocks.len() == func@.blocks.len(),
            func@ == f.add_block("recursive.continue"@),
            i <= at ==> head.len() == i && tail.len() == 0,
            i > at ==> head.len() == at + 1 && tail.len() == i - (at + 1),
            forall|j: int| 0 <= j < head.len() ==> #[trigger] head@[j]@ == want_head[j],
            forall|j: int| 0 <= j < tail.len() ==> #[trigger] tail@[j]@ == want_tail[j],
    {
        let inst = func.blocks[b.0].insts[i].clone();
        assert(inst@ == insts[i as int]);
        if i < at {
            head.push(inst);
        } else if i == at {
            head.push(Inst { result: None, kind: InstKind::Nop });
        } else {
            tail.push(inst);
        }
    }
    assert(ir::insts_view(head@) =~= want_head);
    assert(ir::insts_view(tail@) =~= want_tail);
    func.set_insts(b, head);
    func.put_terminator(b, None);
    func.set_insts(cont, tail);
    func.put_terminator(cont, terminator);
    let ghost blocks = func@.blocks;
    let nv = func.values.len();
    for v in 0..nv
        invariant
            nv == func.values.len(),
            nv == f.values.len(),
            func@ == (FuncView { values: func@.values, blocks, ..f }),
            forall|w: int|
                0 <= w < v ==> #[trigger] func@.values[w] == moved_behind(
                    f.values[w],
                    b,
                    at,
                    cont,
                ),
            forall|w: int| v <= w < nv ==> #[trigger] func@.values[w] == f.values[w],
    {
        let ghost before = func@;
        assert(before.values[v as int] == f.values[v as int]);
        if let ValueKind::Inst(owner, i) = func.values[v].kind {
            if owner == b && i > at {
                func.values[v].kind = ValueKind::Inst(cont, i - (at + 1));
            }
        }
        assert(func@.values =~= before.values.update(
            v as int,
            moved_behind(f.values[v as int], b, at, cont),
        ));
    }
    assert(func@.values =~= cut(f, b, at).values);
    assert(func@.blocks =~= cut(f, b, at).blocks);
    cont
}

fn split_call_block(func: &mut Function, b: BlockId, at: usize) -> (r: BlockId)
    requires
        old(func)@.wf(),
        old(func)@.has_inst(b, at as int),
    ensures
        r == old(func)@.next_block(),
        final(func)@ == split(old(func)@, b, at),
        final(func)@.blocks.len() == old(func)@.blocks.len() + 1,
        final(func)@.values.len() == old(func)@.values.len(),
{
    let ghost f = func@;
    let list = block_successors(func, b.0);
    proof {
        query::lemma_terminator_wf(f, b);
    }
    let cont = cut_block(func, b, at);
    let ghost g = func@;
    let n = list.len();
    let change = IncomingEdit::Rename { from: b, to: cont };
    for k in 0..n
        invariant
            n == list.len(),
            list@ == cfg::succ_list(f.terminator(b)),
            edit::terminator_wf(f.terminator(b), f.blocks.len(), f.values.len()),
            change@ == (EditView::Rename { from: b, to: cont }),
            g.blocks.len() == f.blocks.len() + 1,
            func@ == retargeted(g, list@, b, cont, k as int),
            func@.blocks.len() == g.blocks.len(),
            func@.values == g.values,
    {
        assert(list@[k as int].0 < f.blocks.len());
        edit_phis(func, list[k], &change);
    }
    cont
}

// ---------------------------------------------------------------------------
// Executable copying
// ---------------------------------------------------------------------------

/// The numbers of the copied blocks.
pub struct Copy<'a> {
    pub source: &'a Function,
    pub marks: Vec<bool>,
    pub numbers: Vec<usize>,
    pub base: usize,
}

impl<'a> Copy<'a> {
    /// The copy that this describes, with values given by `map`.
    pub open spec fn with(self, map: Map<ValueId, ValueId>) -> CopyView {
        CopyView { marks: self.marks@, base: self.base as nat, map }
    }

    pub open spec fn wf(self) -> bool {
        &&& verify::valid(self.source@)
        &&& self.marks@ == dead_blocks::live(self.source@)
        &&& self.numbers.len() == self.marks.len()
        &&& forall|b: int|
            0 <= b < self.numbers.len() ==> #[trigger] self.numbers@[b] == dead_blocks::rank(
                self.marks@,
                b,
            )
        &&& self.base + dead_blocks::rank(self.marks@, self.marks.len() as int) <= usize::MAX
    }

    /// The number of blocks once the copies are there.
    pub open spec fn end(self) -> nat {
        self.base as nat + dead_blocks::rank(self.marks@, self.marks.len() as int)
    }

    fn block(&self, b: BlockId, Ghost(map): Ghost<Map<ValueId, ValueId>>) -> (r: BlockId)
        requires
            self.wf(),
            b.0 < self.marks.len(),
        ensures
            r == self.with(map).block(b),
            self.marks@[b.0 as int] ==> r.0 < self.end(),
    {
        proof {
            dead_blocks::lemma_rank_monotone(self.marks@, b.0 as int, self.marks.len() as int);
            dead_blocks::lemma_rank_monotone(self.marks@, 0, b.0 as int);
        }
        BlockId(self.base + self.numbers[b.0])
    }
}

fn add_clones(func: &mut Function, marks: &Vec<bool>)
    ensures
        final(func)@ == clones_added(old(func)@, marks@, marks.len() as int),
        final(func)@.blocks.len() == old(func)@.blocks.len() + dead_blocks::rank(
            marks@,
            marks.len() as int,
        ),
        final(func)@.values == old(func)@.values,
{
    let ghost f = func@;
    let n = marks.len();
    for b in 0..n
        invariant
            n == marks.len(),
            func@ == clones_added(f, marks@, b as int),
            func@.blocks.len() == f.blocks.len() + dead_blocks::rank(marks@, b as int),
            func@.values == f.values,
    {
        if marks[b] {
            func.add_block("recursive.inline");
        }
    }
}

fn bind_parameters(params: &Vec<ValueId>, args: &Vec<ValueId>, Ghost(nv): Ghost<nat>) -> (r: ValueMap)
    requires
        params.len() == args.len(),
        nv <= usize::MAX,
        edit::reads_wf(params@, nv),
    ensures
        r@ == bound(params@, args@, args.len() as int),
{
    let mut map = ValueMap::new();
    let n = args.len();
    for k in 0..n
        invariant
            n == args.len(),
            n == params.len(),
            nv <= usize::MAX,
            edit::reads_wf(params@, nv),
            map@ == bound(params@, args@, k as int),
    {
        assert(params@[k as int].0 < nv);
        map.insert(params[k], args[k]);
    }
    map
}

#[verifier::loop_isolation(false)]
fn import_values(func: &mut Function, source: &Function, map: &mut ValueMap)
    ensures
        (final(func)@, final(map)@) == imported(
            old(func)@,
            source@,
            old(map)@,
            source@.values.len() as int,
        ),
        final(func)@.blocks == old(func)@.blocks,
{
    let ghost f = func@;
    let ghost g = source@;
    let ghost map0 = map@;
    let n = source.values.len();
    for v in 0..n
        invariant
            (func@, map@) == imported(f, g, map0, v as int),
            func@.blocks == f.blocks,
    {
        let value = &source.values[v];
        assert(value@ == g.values[v as int]);
        match &value.kind {
            ValueKind::Const(c) => {
                let w = get_or_add_const(func, c);
                map.insert(ValueId(v), w);
            },
            ValueKind::Global(name) => {
                let w = get_or_add_global(func, name, &value.ty);
                map.insert(ValueId(v), w);
            },
            _ => {},
        }
    }
}

/// Adds values for the results of the copied blocks.
#[verifier::loop_isolation(false)]
fn allocate_results(func: &mut Function, copy: &Copy<'_>, map: &mut ValueMap)
    requires
        copy.wf(),
    ensures
        (final(func)@, final(map)@) == allocated(
            old(func)@,
            copy.source@,
            copy.with(old(map)@),
            copy.source@.blocks.len() as int,
        ),
        final(func)@.blocks == old(func)@.blocks,
{
    let ghost f = func@;
    let ghost g = copy.source@;
    let ghost c = copy.with(map@);
    let n = copy.source.blocks.len();
    for x in 0..n
        invariant
            (func@, map@) == allocated(f, g, c, x as int),
            func@.blocks == f.blocks,
    {
        if copy.marks[x] {
            let b = BlockId(x);
            let clone = copy.block(b, Ghost(c.map));
            let list = active_insts(copy.source, b);
            let m = list.len();
            let ghost f1 = func@;
            let ghost map1 = map@;
            for k in 0..m
                invariant
                    m == list.len(),
                    list@ == query::active(g, b),
                    (func@, map@) == block_allocated(f1, g, b, clone, map1, k as int),
                    func@.blocks == f.blocks,
            {
                let inst = &copy.source.blocks[x].insts[list[k]];
                assert(inst@ == g.inst(b, list@[k as int] as int));
                proof {
                    query::lemma_inst_wf(g, b, list@[k as int] as int);
                    assert(copy.source.values.len() == g.values.len());
                }
                if let Some(r) = inst.result {
                    let ty = copy.source.values[r.0].ty.clone();
                    let w = func.push_value(
                        Value { name: None, ty, kind: ValueKind::Inst(clone, k) },
                    );
                    map.insert(r, w);
                }
            }
        }
    }
}

#[verifier::loop_isolation(false)]
fn copy_entries(incomings: &Vec<(BlockId, ValueId)>, copy: &Copy<'_>, map: &ValueMap) -> (r: Vec<
    (BlockId, ValueId),
>)
    requires
        copy.wf(),
        forall|k: int|
            0 <= k < incomings.len() ==> (#[trigger] incomings@[k]).0.0 < copy.marks.len(),
    ensures
        r@ == incomings@.filter(dead_blocks::is_marked(copy.marks@)).map_values(
            copied_entries(copy.with(map@)),
        ),
{
    let ghost keep = dead_blocks::is_marked(copy.marks@);
    let ghost shift = copied_entries(copy.with(map@));
    let mut r: Vec<(BlockId, ValueId)> = Vec::new();
    let n = incomings.len();
    proof {
        reveal(Seq::filter);
        assert(incomings@.take(0).filter(keep).map_values(shift) =~= Seq::<
            (BlockId, ValueId),
        >::empty());
    }
    for i in 0..n
        invariant
            r@ == incomings@.take(i as int).filter(keep).map_values(shift),
    {
        proof {
            reveal(Seq::filter);
            assert(incomings@.take(i + 1).drop_last() =~= incomings@.take(i as int));
            assert(incomings@.take(i + 1).last() == incomings@[i as int]);
        }
        let ghost before = incomings@.take(i as int).filter(keep);
        let (pred, value) = (incomings[i].0, incomings[i].1);
        assert(incomings@[i as int].0.0 < copy.marks.len());
        if copy.marks[pred.0] {
            r.push((copy.block(pred, Ghost(map@)), map.resolve(value, 1)));
            assert(before.push(incomings@[i as int]).map_values(shift) =~= before.map_values(
                shift,
            ).push(shift(incomings@[i as int])));
        }
    }
    assert(incomings@.take(n as int) =~= incomings@);
    r
}

#[verifier::loop_isolation(false)]
fn copy_insts(copy: &Copy<'_>, b: BlockId, map: &ValueMap) -> (r: Vec<Inst>)
    requires
        copy.wf(),
        copy.source@.has_block(b),
    ensures
        ir::insts_view(r@) == copied_insts(copy.source@, b, copy.with(map@)),
{
    let ghost g = copy.source@;
    let ghost want = copied_insts(g, b, copy.with(map@));
    let list = active_insts(copy.source, b);
    let n = list.len();
    let mut insts: Vec<Inst> = Vec::new();
    for k in 0..n
        invariant
            insts.len() == k,
            forall|j: int| 0 <= j < k ==> #[trigger] insts@[j]@ == want[j],
    {
        let inst = &copy.source.blocks[b.0].insts[list[k]];
        assert(inst@ == g.inst(b, list@[k as int] as int));
        proof {
            query::lemma_inst_wf(g, b, list@[k as int] as int);
            assert(copy.marks@.len() == g.blocks.len());
        }
        let result = match inst.result {
            Some(r) => Some(map.resolve(r, 1)),
            None => None,
        };
        let kind = match &inst.kind {
            InstKind::Phi { incomings } => InstKind::Phi {
                incomings: copy_entries(incomings, copy, map),
            },
            _ => resolve_kind(&inst.kind, map, 1),
        };
        insts.push(Inst { result, kind });
    }
    assert(ir::insts_view(insts@) =~= want);
    insts
}

#[verifier::loop_isolation(false)]
fn fill_clones(func: &mut Function, copy: &Copy<'_>, map: &ValueMap, cont: BlockId)
    requires
        copy.wf(),
        old(func)@.blocks.len() == copy.end(),
    ensures
        final(func)@ == filled(
            old(func)@,
            copy.source@,
            copy.with(map@),
            cont,
            copy.source@.blocks.len() as int,
        ),
        final(func)@.blocks.len() == old(func)@.blocks.len(),
        final(func)@.values == old(func)@.values,
{
    let ghost f = func@;
    let ghost g = copy.source@;
    let ghost c = copy.with(map@);
    let n = copy.source.blocks.len();
    for x in 0..n
        invariant
            func@ == filled(f, g, c, cont, x as int),
            func@.blocks.len() == f.blocks.len(),
            func@.values == f.values,
    {
        if copy.marks[x] {
            let b = BlockId(x);
            proof {
                query::lemma_terminator_wf(g, b);
                assert(copy.marks@.len() == g.blocks.len());
            }
            let clone = copy.block(b, Ghost(map@));
            let insts = copy_insts(copy, b, map);
            let terminator = match copy.source.blocks[x].terminator {
                Some(Terminator::Return(_)) => Some(Terminator::Jump(cont)),
                Some(Terminator::Jump(target)) => Some(
                    Terminator::Jump(copy.block(target, Ghost(map@))),
                ),
                Some(Terminator::Branch { cond, then_target, else_target }) => Some(
                    Terminator::Branch {
                        cond: map.resolve(cond, 1),
                        then_target: copy.block(then_target, Ghost(map@)),
                        else_target: copy.block(else_target, Ghost(map@)),
                    },
                ),
                None => None,
            };
            func.set_insts(clone, insts);
            func.put_terminator(clone, terminator);
        }
    }
}

#[verifier::loop_isolation(false)]
fn collect_results(copy: &Copy<'_>, map: &ValueMap) -> (r: Vec<(BlockId, ValueId)>)
    requires
        copy.wf(),
    ensures
        r@ == results_below(
            copy.source@,
            copy.with(map@),
            copy.source@.blocks.len() as int,
        ),
{
    let ghost g = copy.source@;
    let ghost c = copy.with(map@);
    let mut r: Vec<(BlockId, ValueId)> = Vec::new();
    let n = copy.source.blocks.len();
    for x in 0..n
        invariant
            r@ == results_below(g, c, x as int),
    {
        if copy.marks[x] {
            if let Some(Terminator::Return(Some(v))) = copy.source.blocks[x].terminator {
                r.push((copy.block(BlockId(x), Ghost(map@)), map.resolve(v, 1)));
            }
        }
    }
    r
}

fn splice(func: &mut Function, source: &Function, site: CallSite, args: &Vec<ValueId>)
    requires
        old(func)@.wf(),
        verify::valid(source@),
        call_at(old(func)@, source@, site) == Some(args@),
    ensures
        final(func)@ == with_copy(old(func)@, source@, site, args@),
{
    assert(source.values.len() == source@.values.len());
    assert(func.values.len() == func@.values.len());
    let marks = reachable_blocks(source);
    let numbers = ranks(&marks);
    let cont = split_call_block(func, site.block, site.at);
    assert(func.blocks.len() == func@.blocks.len());
    let base = func.blocks.len();
    add_clones(func, &marks);
    assert(func.blocks.len() == func@.blocks.len());
    let copy = Copy { source, marks, numbers, base };
    let mut map = bind_parameters(&source.params, args, Ghost(source@.values.len()));
    import_values(func, source, &mut map);
    allocate_results(func, &copy, &mut map);
    fill_clones(func, &copy, &map, cont);
    let results = collect_results(&copy, &map);
    let start = copy.block(source.entry, Ghost(map@));
    func.set_terminator(site.block, Terminator::Jump(start));
    let merged = func.insert_inst(
        cont,
        0,
        InstKind::Phi { incomings: results },
        Some(source.ret.clone()),
    );
    if let Some(merged) = merged {
        replace_all_uses(func, site.result, merged);
    }
}

/// Replaces the call at `site` by a copy of the callee, if the site still is
/// such a call and the result is valid.
pub fn inline_call_site(func: &mut Function, source: &Function, site: CallSite) -> (r: bool)
    requires
        old(func)@.wf(),
        verify::valid(source@),
    ensures
        match inlined(old(func)@, source@, site) {
            Some(g) => r && final(func)@ == g,
            None => !r && final(func)@ == old(func)@,
        },
        final(func)@.wf(),
{
    if site.block.0 >= func.blocks.len() || site.at >= func.blocks[site.block.0].insts.len() {
        return false;
    }
    let inst = &func.blocks[site.block.0].insts[site.at];
    assert(inst@ == func@.inst(site.block, site.at as int));
    if inst.result != Some(site.result) {
        return false;
    }
    let args = match &inst.kind {
        InstKind::Call { name: _, args } => args.clone(),
        _ => {
            return false;
        },
    };
    if !call_types_match(func, site.result, source, &args) {
        return false;
    }
    let before = func.clone();
    splice(func, source, site, &args);
    if func.verify().is_err() {
        *func = before;
        return false;
    }
    true
}

} // verus!
