//! Updates of pointers that move to the end of a loop.
//!
//! Where the header of a loop computes both an address and the next value of a
//! pointer with one instruction, a copy of it moves to the back edges, so that
//! the header uses it as an address only. Before that, updates move behind the
//! last use of the old pointer in the header.
pub mod schedule;
pub mod search;
pub mod sink;

use vstd::prelude::*;

use crate::cfg::{ControlFlowGraph, Dominators};
use crate::ir::{FuncView, Function, InstView, Module, ModuleView};
use crate::loops;
use crate::loops::LoopInfo;
use crate::pass::recurrence_update_sink::schedule::schedule_header_pointer_updates;
use crate::pass::recurrence_update_sink::search::find_candidates;
use crate::pass::recurrence_update_sink::sink::sink_all;
use crate::verify;

verus! {

pub const MAX_BLOCKS: usize = 1024;

pub const MAX_VALUES: usize = 8192;

pub const MAX_INSTRUCTIONS: usize = 32768;

/// How many instructions the first `n` blocks have.
pub open spec fn insts_upto(f: FuncView, n: int) -> nat
    decreases n,
{
    if n <= 0 {
        0
    } else {
        insts_upto(f, n - 1) + f.blocks[n - 1].insts.len()
    }
}

pub open spec fn is_small(f: FuncView) -> bool {
    f.blocks.len() <= MAX_BLOCKS && f.values.len() <= MAX_VALUES && insts_upto(
        f,
        f.blocks.len() as int,
    ) <= MAX_INSTRUCTIONS
}

/// The function with the updates of pointers moved.
pub open spec fn updates_moved(f: FuncView) -> FuncView {
    let g = schedule::scheduled(f);
    sink::all_sunk(g, search::candidates_of(g, loops::loops_of(f)))
}

/// The effect on one function. A result that would not be valid is discarded.
pub open spec fn sunk(f: FuncView) -> FuncView {
    if is_small(f) && verify::valid(updates_moved(f)) {
        updates_moved(f)
    } else {
        f
    }
}

pub open spec fn sunk_module(m: ModuleView) -> ModuleView {
    ModuleView { funcs: m.funcs.map_values(|f: FuncView| sunk(f)), ..m }
}

proof fn lemma_insts_grow(f: FuncView, m: int, n: int)
    requires
        0 <= m <= n,
    ensures
        insts_upto(f, m) <= insts_upto(f, n),
    decreases n,
{
    if m < n {
        lemma_insts_grow(f, m, n - 1);
    }
}

fn is_small_function(func: &Function) -> (r: bool)
    ensures
        r == is_small(func@),
{
    let ghost f = func@;
    let n = func.blocks.len();
    assert(n == f.blocks.len());
    assert(func.values.len() == f.values.len());
    if n > MAX_BLOCKS || func.values.len() > MAX_VALUES {
        return false;
    }
    let mut total: usize = 0;
    for b in 0..n
        invariant
            func@ == f,
            n == f.blocks.len(),
            total <= MAX_INSTRUCTIONS,
            total == insts_upto(f, b as int),
    {
        let count = func.blocks[b].insts.len();
        assert(count == f.blocks[b as int].insts.len());
        if count > MAX_INSTRUCTIONS - total {
            proof {
                lemma_insts_grow(f, b + 1, n as int);
            }
            return false;
        }
        total = total + count;
    }
    true
}

/// Moves the updates of pointers in the loops of a function.
pub fn sink_function(func: &mut Function)
    requires
        old(func)@.wf(),
    ensures
        final(func)@ == sunk(old(func)@),
        final(func)@.wf(),
{
    if !is_small_function(func) {
        return;
    }
    let ghost f = func@;
    let before = func.clone();
    let graph = ControlFlowGraph::new(func);
    let dom = Dominators::new(func, &graph);
    let info = LoopInfo::new(func, &graph, &dom);
    let list = info.loops();
    assert(func.blocks.len() == f.blocks.len());
    assert forall|k: int| 0 <= k < list.len() implies (#[trigger] list@[k])@.within(
        f.blocks.len(),
    ) by {
        assert(loops::loops_of(f).len() == list.len());
        assert(loops::loops_of(f)[k] == list@[k]@);
        loops::lemma_listed_loop(f, k);
    }
    schedule_header_pointer_updates(func, list);
    let candidates = find_candidates(func, list);
    sink_all(func, &candidates);
    if func.verify().is_err() {
        *func = before;
    }
}

/// The pass over all functions of a module.
pub struct RecurrenceUpdateSinkPass;

impl RecurrenceUpdateSinkPass {
    pub fn new() -> (r: Self) {
        RecurrenceUpdateSinkPass
    }

    /// Moves the updates of pointers in the loops of every function.
    pub fn run(&self, module: &mut Module)
        requires
            old(module)@.wf(),
        ensures
            final(module)@ == sunk_module(old(module)@),
            final(module)@.wf(),
    {
        let ghost m = module@;
        let ghost want = sunk_module(m);
        let n = module.funcs.len();
        for k in 0..n
            invariant
                n == module.funcs.len(),
                n == m.funcs.len(),
                m.wf(),
                module@ == (ModuleView { funcs: module@.funcs, ..m }),
                want == sunk_module(m),
                forall|j: int|
                    0 <= j < k ==> #[trigger] module@.funcs[j] == want.funcs[j]
                        && module@.funcs[j].wf(),
                forall|j: int| k <= j < n ==> #[trigger] module@.funcs[j] == m.funcs[j],
        {
            assert(module@.funcs[k as int] == m.funcs[k as int]);
            let ghost before = module@.funcs;
            sink_function(&mut module.funcs[k]);
            assert(module@.funcs =~= before.update(k as int, module.funcs@[k as int]@));
        }
        assert(module@.funcs =~= want.funcs);
    }
}


// ---------------------------------------------------------------------------
// Laws
// ---------------------------------------------------------------------------

/// The pass keeps functions valid.
pub proof fn sinking_keeps_validity(f: FuncView)
    requires
        verify::valid(f),
    ensures
        verify::valid(sunk(f)),
{
}

proof fn lemma_last_read(insts: Seq<InstView>, v: crate::ir::ValueId, skip: int, n: int)
    ensures
        schedule::last_read(insts, v, skip, n) matches Some(i) ==> 0 <= i < n,
        forall|j: int|
            0 <= j < n && j != skip && crate::edit::operands(
                (#[trigger] insts[j]).kind,
            ).contains(v) ==> (schedule::last_read(insts, v, skip, n) matches Some(i) && j <= i),
    decreases n,
{
    if n > 0 {
        lemma_last_read(insts, v, skip, n - 1);
    }
}

proof fn lemma_first_read(insts: Seq<InstView>, v: crate::ir::ValueId, skip: int, k: int)
    requires
        0 <= k,
    ensures
        forall|j: int|
            k <= j < insts.len() && j != skip && !((#[trigger] insts[j]).kind is Phi)
                && crate::edit::operands(insts[j].kind).contains(v) ==> (schedule::first_read(
                insts,
                v,
                skip,
                k,
            ) matches Some(i) && i <= j),
    decreases insts.len() - k,
{
    if k < insts.len() {
        lemma_first_read(insts, v, skip, k + 1);
    }
}

/// A scheduled update still stands before all reads of it in its block, and
/// behind all reads of the old pointer.
pub proof fn moved_updates_keep_the_order(f: FuncView, u: schedule::Update, j: int)
    requires
        schedule::move_of(f, u) is Some,
        f.block(u.header).insts.len() <= usize::MAX,
        0 <= j < f.block(u.header).insts.len(),
    ensures
        schedule::move_of(f, u) matches Some((at, last)) && at < last && ({
            let insts = f.block(u.header).insts;
            let moved = schedule::inst_moved(insts, at as int, last as int);
            &&& moved.len() == insts.len()
            &&& moved[last as int] == insts[at as int]
            &&& (j != last && !(moved[j].kind is Phi) && crate::edit::operands(
                moved[j].kind,
            ).contains(u.value) ==> j > last)
            &&& (j != last && crate::edit::operands(moved[j].kind).contains(u.phi) ==> j < last)
        }),
{
    let insts = f.block(u.header).insts;
    let (at, last) = schedule::move_of(f, u)->0;
    lemma_last_read(insts, u.phi, at as int, insts.len() as int);
    lemma_first_read(insts, u.value, at as int, 0);
    let moved = schedule::inst_moved(insts, at as int, last as int);
    let from = if j < at || j > last {
        j
    } else if j == last {
        at as int
    } else {
        j + 1
    };
    assert(moved[j] == insts[from]);
}

} // verus!
