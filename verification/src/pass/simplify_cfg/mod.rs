//! Simplification of the control-flow graph.
pub mod boolean_stores;
pub mod branches;
pub mod convert_laws;
pub mod dead_blocks;
pub mod fixpoint_laws;
pub mod if_convert;
pub mod if_convert_laws;
pub mod jump_thread;
pub mod known_bits;
pub mod known_bits_laws;
pub mod meaning_laws;
pub mod select_laws;
pub mod store_laws;
pub mod structural;
pub mod tail_laws;
pub mod tail_merge;
pub mod threading_laws;
pub mod trivial_laws;
pub mod whole_laws;

use vstd::prelude::*;

use crate::cfg::{ControlFlowGraph, Dominators};
use crate::ir::{BlockId, FuncView, Function, Module, ModuleView};
use crate::loops;
use crate::loops::{LoopInfo, LoopView};
use crate::pass::simplify_cfg::boolean_stores::if_convert_boolean_stores;
use crate::pass::simplify_cfg::branches::{
    simplify_branches, simplify_trivial_phis, thread_boolean_phi_branches,
};
use crate::pass::simplify_cfg::if_convert::{
    if_convert_conditional_updates, if_convert_short_circuit_booleans,
};
use crate::pass::simplify_cfg::jump_thread::{thread_known_integer_edges, ThreadState};
use crate::pass::simplify_cfg::structural::{
    forward_empty_jump_block, forward_empty_jump_block_except, merge_linear_block,
};
use crate::pass::simplify_cfg::tail_merge::merge_equivalent_phi_edge_updates;
use crate::pass::simplify_cfg::dead_blocks::remove_unreachable_blocks;
use crate::verify;

verus! {

/// Functions with more blocks than this are not searched for loop preheaders.
pub const MAX_PREHEADER_ANALYSIS_BLOCKS: usize = 256;

/// How many edges are tried for jump threading in one run.
pub const THREAD_ATTEMPTS: usize = 64;

/// The dedicated preheaders of the first `n` loops of a list.
pub open spec fn preheaders_below(list: Seq<LoopView>, n: int) -> Seq<BlockId>
    decreases n,
{
    if n <= 0 {
        Seq::empty()
    } else {
        match list[n - 1].dedicated_preheader {
            Some(b) => preheaders_below(list, n - 1).push(b),
            None => preheaders_below(list, n - 1),
        }
    }
}

/// The dedicated preheaders of the loops of a function.
pub open spec fn preheaders(f: FuncView) -> Seq<BlockId> {
    preheaders_below(loops::loops_of(f), loops::loops_of(f).len() as int)
}

/// The effect of forwarding: with `preserve`, preheaders stay, and large
/// functions are left alone.
pub open spec fn forwarding_step(f: FuncView, preserve: bool) -> (FuncView, bool) {
    if !preserve {
        structural::forward_step(f, Seq::empty())
    } else if f.blocks.len() <= MAX_PREHEADER_ANALYSIS_BLOCKS {
        structural::forward_step(f, preheaders(f))
    } else {
        (f, false)
    }
}

/// The part of a round up to jump threading.
pub open spec fn early_steps(f: FuncView) -> (FuncView, bool) {
    let (f1, c1) = dead_blocks::remove_step(f);
    let (f2, c2) = branches::branch_step(f1);
    let (f3, c3) = if_convert::short_circuits(f2, Seq::empty(), 0, false);
    let (f4, c4) = if_convert::updates(f3, Seq::empty(), 0, false);
    let (f5, c5) = boolean_stores::store_step(f4);
    let (f6, c6) = branches::phi_branch_step(f5);
    (f6, c1 || c2 || c3 || c4 || c5 || c6)
}

/// The part of a round behind jump threading.
pub open spec fn late_steps(f: FuncView, preserve: bool) -> (FuncView, bool) {
    let (f1, c1) = branches::trivial_step(f);
    let (f2, c2) = if preserve {
        (f1, false)
    } else {
        tail_merge::tail_step(f1)
    };
    let (f3, c3) = forwarding_step(f2, preserve);
    let (f4, c4) = structural::merge_step(f3);
    (f4, c1 || c2 || c3 || c4)
}

/// The effect of one round.
pub open spec fn round(s: ThreadState, preserve: bool, limit: nat) -> (ThreadState, bool) {
    let (f1, c1) = early_steps(s.f);
    let early = ThreadState { f: f1, ..s };
    let (threaded, c2) = if preserve {
        (early, false)
    } else {
        jump_thread::thread_step(early, limit)
    };
    let (f3, c3) = late_steps(threaded.f, preserve);
    (ThreadState { f: f3, ..threaded }, c1 || c2 || c3)
}

/// The effect of rounds until one changes nothing, or `fuel` are used up.
pub open spec fn rounds(s: ThreadState, preserve: bool, limit: nat, fuel: nat) -> FuncView
    decreases fuel,
{
    if fuel == 0 {
        s.f
    } else {
        let (t, changed) = round(s, preserve, limit);
        if changed {
            rounds(t, preserve, limit, (fuel - 1) as nat)
        } else {
            t.f
        }
    }
}

/// The simplified function. A result that would not be valid is discarded.
pub open spec fn simplified(f: FuncView, preserve: bool) -> FuncView {
    let start = ThreadState { f, attempted: Seq::empty(), budget: THREAD_ATTEMPTS as nat };
    let g = rounds(start, preserve, f.blocks.len(), u64::MAX as nat);
    if verify::valid(g) {
        g
    } else {
        f
    }
}

/// Simplification keeps a valid function valid.
pub proof fn simplification_keeps_validity(f: FuncView, preserve: bool)
    requires
        verify::valid(f),
    ensures
        verify::valid(simplified(f, preserve)),
{
}

fn collect_preheaders(func: &Function) -> (r: Vec<BlockId>)
    requires
        func@.wf(),
    ensures
        r@ == preheaders(func@),
{
    let graph = ControlFlowGraph::new(func);
    let dom = Dominators::new(func, &graph);
    let info = LoopInfo::new(func, &graph, &dom);
    let list = info.loops();
    let n = list.len();
    let mut r: Vec<BlockId> = Vec::new();
    for k in 0..n
        invariant
            n == list.len(),
            loops::loops_view(list@) == loops::loops_of(func@),
            r@ == preheaders_below(loops::loops_of(func@), k as int),
    {
        assert(loops::loops_view(list@)[k as int] == list@[k as int]@);
        if let Some(b) = list[k].dedicated_preheader {
            r.push(b);
        }
    }
    assert(loops::loops_view(list@).len() == n);
    r
}

fn run_round(
    func: &mut Function,
    preserve: bool,
    limit: usize,
    attempted: &mut Vec<BlockId>,
    budget: &mut usize,
) -> (r: bool)
    requires
        old(func)@.wf(),
    ensures
        ({
            let start = ThreadState {
                f: old(func)@,
                attempted: old(attempted)@,
                budget: *old(budget) as nat,
            };
            let end = ThreadState {
                f: final(func)@,
                attempted: final(attempted)@,
                budget: *final(budget) as nat,
            };
            round(start, preserve, limit as nat) == (end, r)
        }),
        final(func)@.wf(),
{
    let mut changed = remove_unreachable_blocks(func);
    if simplify_branches(func) {
        changed = true;
    }
    if if_convert_short_circuit_booleans(func) {
        changed = true;
    }
    if if_convert_conditional_updates(func) {
        changed = true;
    }
    if if_convert_boolean_stores(func) {
        changed = true;
    }
    if thread_boolean_phi_branches(func) {
        changed = true;
    }
    if !preserve {
        if thread_known_integer_edges(func, limit, attempted, budget) {
            changed = true;
        }
    }
    if simplify_trivial_phis(func) {
        changed = true;
    }
    if !preserve {
        if merge_equivalent_phi_edge_updates(func) {
            changed = true;
        }
    }
    if !preserve {
        if forward_empty_jump_block(func) {
            changed = true;
        }
    } else if func.blocks.len() <= MAX_PREHEADER_ANALYSIS_BLOCKS {
        let kept = collect_preheaders(func);
        if forward_empty_jump_block_except(func, &kept) {
            changed = true;
        }
    }
    if merge_linear_block(func) {
        changed = true;
    }
    changed
}

/// Simplifies a function until nothing changes.
pub fn simplify_function(func: &mut Function, preserve_loop_preheaders: bool)
    requires
        old(func)@.wf(),
    ensures
        final(func)@ == simplified(old(func)@, preserve_loop_preheaders),
        final(func)@.wf(),
{
    let before = func.clone();
    let limit = func.blocks.len();
    let mut attempted: Vec<BlockId> = Vec::new();
    let mut budget: usize = THREAD_ATTEMPTS;
    let mut fuel: u64 = u64::MAX;
    let mut changed = true;
    let ghost want = rounds(
        ThreadState { f: before@, attempted: Seq::empty(), budget: THREAD_ATTEMPTS as nat },
        preserve_loop_preheaders,
        limit as nat,
        u64::MAX as nat,
    );
    assert(attempted@ =~= Seq::<BlockId>::empty());
    while changed && fuel > 0
        invariant
            func@.wf(),
            changed ==> want == rounds(
                ThreadState { f: func@, attempted: attempted@, budget: budget as nat },
                preserve_loop_preheaders,
                limit as nat,
                fuel as nat,
            ),
            !changed ==> want == func@,
        decreases fuel,
    {
        changed = run_round(func, preserve_loop_preheaders, limit, &mut attempted, &mut budget);
        fuel = fuel - 1;
    }
    if func.verify().is_err() {
        *func = before;
    }
}

/// The pass over all functions of a module.
pub struct SimplifyCfgPass {
    pub preserve_loop_preheaders: bool,
}

/// Every function simplified.
pub open spec fn simplified_module(m: ModuleView, preserve: bool) -> ModuleView {
    ModuleView { funcs: m.funcs.map_values(|f: FuncView| simplified(f, preserve)), ..m }
}

impl SimplifyCfgPass {
    /// Forwards every empty block.
    pub fn new() -> (r: Self)
        ensures
            !r.preserve_loop_preheaders,
    {
        SimplifyCfgPass { preserve_loop_preheaders: false }
    }

    /// Keeps empty dedicated loop preheaders until the loop transforms that
    /// depend on their shape have run.
    pub fn preserving_loop_preheaders() -> (r: Self)
        ensures
            r.preserve_loop_preheaders,
    {
        SimplifyCfgPass { preserve_loop_preheaders: true }
    }

    /// Simplifies every function.
    pub fn run(&self, module: &mut Module)
        requires
            old(module)@.wf(),
        ensures
            final(module)@ == simplified_module(old(module)@, self.preserve_loop_preheaders),
            final(module)@.wf(),
    {
        let ghost m = module@;
        let ghost preserve = self.preserve_loop_preheaders;
        let ghost want = simplified_module(m, preserve);
        let n = module.funcs.len();
        for k in 0..n
            invariant
                n == module.funcs.len(),
                n == m.funcs.len(),
                m.wf(),
                module@ == (ModuleView { funcs: module@.funcs, ..m }),
                preserve == self.preserve_loop_preheaders,
                want == simplified_module(m, preserve),
                forall|j: int|
                    0 <= j < k ==> #[trigger] module@.funcs[j] == want.funcs[j]
                        && module@.funcs[j].wf(),
                forall|j: int| k <= j < n ==> #[trigger] module@.funcs[j] == m.funcs[j],
        {
            assert(module@.funcs[k as int] == m.funcs[k as int]);
            let ghost before = module@.funcs;
            simplify_function(&mut module.funcs[k], self.preserve_loop_preheaders);
            assert(module@.funcs =~= before.update(k as int, module.funcs@[k as int]@));
        }
        assert(module@.funcs =~= want.funcs);
    }
}

} // verus!
