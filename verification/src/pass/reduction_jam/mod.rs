//! Jamming of reductions: several rounds of an outer loop at once.
//!
//! An outer loop whose rounds each run an inner reduction and store its result
//! gets a copy before it that runs two or four rounds at once: one inner loop
//! with an accumulator for each of the lanes. The copy runs while all its lanes
//! stay below the bound; the loop itself runs what is left. What one lane loads
//! must not be touched by the store of an earlier one.
pub mod apply;
pub mod budget;
pub mod cost;
pub mod lanes;
pub mod laws;
pub mod nest;
pub mod shape;

use vstd::prelude::*;

use crate::cfg::{ControlFlowGraph, Dominators};
use crate::ir::{FuncView, Function, Module, ModuleView};
use crate::loops;
use crate::loops::{order_by_size, LoopInfo, LoopView, NaturalLoop};
use crate::pass::reduction_jam::apply::{apply_candidate, apply_conditional_candidate};
use crate::pass::reduction_jam::budget::{
    conditional_factor_is_profitable, is_small_function, select_conditional_jam_factor,
    select_jam_factor,
};
use crate::pass::reduction_jam::nest::{
    match_conditional, match_plain, ConditionalNest, Nest,
};
use crate::verify;

verus! {

// ---------------------------------------------------------------------------
// Mathematical model
// ---------------------------------------------------------------------------

/// The nest around an inner loop with a single block besides its header.
#[verifier::opaque]
pub open spec fn plain_nest(f: FuncView, list: Seq<LoopView>, inner: LoopView) -> Option<Nest> {
    if exists|n: Nest| nest::plain_fits(f, list, inner, n) {
        Some(choose|n: Nest| nest::plain_fits(f, list, inner, n))
    } else {
        None
    }
}

/// The first plain nest at the loops in the given order, from place `k` on.
pub open spec fn plain_from(f: FuncView, list: Seq<LoopView>, order: Seq<usize>, k: int) -> Option<
    Nest,
>
    decreases order.len() - k,
{
    if k < 0 || k >= order.len() {
        None
    } else {
        match plain_nest(f, list, list[order[k] as int]) {
            Some(n) => Some(n),
            None => plain_from(f, list, order, k + 1),
        }
    }
}

/// The plain nest of a function; small loops come first.
pub open spec fn plain_of(f: FuncView) -> Option<Nest> {
    let list = loops::loops_of(f);
    plain_from(f, list, loops::size_order(list, true), 0)
}

/// The nest around an inner loop that adds under a condition.
pub open spec fn conditional_nest(f: FuncView, list: Seq<LoopView>, inner: LoopView) -> Option<
    ConditionalNest,
> {
    if exists|c: ConditionalNest| nest::conditional_fits(f, list, inner, c) {
        Some(choose|c: ConditionalNest| nest::conditional_fits(f, list, inner, c))
    } else {
        None
    }
}

/// The nest with a condition at a loop, if its lanes pay off, and their number.
#[verifier::opaque]
pub open spec fn conditional_at(
    f: FuncView,
    list: Seq<LoopView>,
    inner: LoopView,
    max_factor: int,
) -> Option<(ConditionalNest, usize)> {
    match conditional_nest(f, list, inner) {
        Some(c) => {
            let factor = budget::conditional_factor_of(f, c, max_factor);
            if budget::conditional_pays(f, c, factor as nat) {
                Some((c, factor))
            } else {
                None
            }
        },
        None => None,
    }
}

pub open spec fn conditional_from(
    f: FuncView,
    list: Seq<LoopView>,
    order: Seq<usize>,
    max_factor: int,
    k: int,
) -> Option<(ConditionalNest, usize)>
    decreases order.len() - k,
{
    if k < 0 || k >= order.len() {
        None
    } else {
        match conditional_at(f, list, list[order[k] as int], max_factor) {
            Some(r) => Some(r),
            None => conditional_from(f, list, order, max_factor, k + 1),
        }
    }
}

/// The nest with a condition of a function; small loops come first.
pub open spec fn conditional_of(f: FuncView, max_factor: int) -> Option<(ConditionalNest, usize)> {
    let list = loops::loops_of(f);
    conditional_from(f, list, loops::size_order(list, true), max_factor, 0)
}

/// The function with one nest rewritten. Nests with a condition are rewritten
/// only where four lanes are allowed.
pub open spec fn rewritten(f: FuncView, max_factor: int) -> Option<FuncView> {
    if f.reduction_jammed || !budget::is_small(f) {
        None
    } else {
        match (if max_factor >= 4 {
            conditional_of(f, max_factor)
        } else {
            None
        }) {
            Some((c, factor)) => Some(apply::conditionally_jammed(f, c, factor as int)),
            None => match plain_of(f) {
                Some(n) => match budget::factor_of(f, n, max_factor) {
                    Some(factor) => Some(apply::jammed(f, n, factor as int)),
                    None => None,
                },
                None => None,
            },
        }
    }
}

/// The effect on one function. A result that would not be valid is discarded.
pub open spec fn jammed(f: FuncView, max_factor: int) -> FuncView {
    match rewritten(f, max_factor) {
        Some(g) => if verify::valid(g) {
            g
        } else {
            f
        },
        None => f,
    }
}

pub open spec fn jammed_module(m: ModuleView, max_factor: int) -> ModuleView {
    ModuleView { funcs: m.funcs.map_values(|f: FuncView| jammed(f, max_factor)), ..m }
}

// ---------------------------------------------------------------------------
// Executable functions
// ---------------------------------------------------------------------------

/// Matches the plain nest at a loop.
fn plain_at_loop(func: &Function, dom: &Dominators, list: &Vec<NaturalLoop>, at: usize) -> (r: Option<
    Nest,
>)
    requires
        func@.wf(),
        dom.of(func@),
        at < list.len(),
        forall|k: int| 0 <= k < list.len() ==> (#[trigger] list@[k])@.within(func@.blocks.len()),
    ensures
        r == plain_nest(func@, loops::loops_view(list@), list@[at as int]@),
        r matches Some(n) ==> nest::nest_in(func@, n) && n.outer_initial >= 0,
{
    reveal(plain_nest);
    let ghost views = loops::loops_view(list@);
    let ghost inner = list@[at as int]@;
    let r = match_plain(func, dom, list, at);
    proof {
        let chosen = choose|n: Nest| nest::plain_fits(func@, views, inner, n);
        if let Some(n) = r {
            assert(nest::plain_fits(func@, views, inner, n));
            assert(nest::plain_fits(func@, views, inner, chosen));
        }
    }
    r
}

/// Matches the nest with a condition at a loop, and chooses its lanes.
fn conditional_at_loop(
    func: &Function,
    dom: &Dominators,
    list: &Vec<NaturalLoop>,
    at: usize,
    max_factor: usize,
) -> (r: Option<(ConditionalNest, usize)>)
    requires
        func@.wf(),
        dom.of(func@),
        at < list.len(),
        forall|k: int| 0 <= k < list.len() ==> (#[trigger] list@[k])@.within(func@.blocks.len()),
    ensures
        r == conditional_at(
            func@,
            loops::loops_view(list@),
            list@[at as int]@,
            max_factor as int,
        ),
        r matches Some((c, factor)) ==> nest::nest_in(func@, c.nest) && func@.has_block(c.condition)
            && func@.has_block(c.update) && (factor == 2 || factor == 4),
{
    reveal(conditional_at);
    let ghost views = loops::loops_view(list@);
    let ghost inner = list@[at as int]@;
    let r = match_conditional(func, dom, list, at);
    proof {
        let chosen = choose|c: ConditionalNest| nest::conditional_fits(func@, views, inner, c);
        if let Some(c) = r {
            assert(nest::conditional_fits(func@, views, inner, c));
            assert(nest::conditional_fits(func@, views, inner, chosen));
        }
        assert(r == conditional_nest(func@, views, inner));
    }
    let c = r?;
    let factor = select_conditional_jam_factor(func, c, max_factor);
    if conditional_factor_is_profitable(func, c, factor) {
        Some((c, factor))
    } else {
        None
    }
}

fn find_candidate(func: &Function, dom: &Dominators, list: &Vec<NaturalLoop>) -> (r: Option<Nest>)
    requires
        func@.wf(),
        dom.of(func@),
        loops::loops_view(list@) == loops::loops_of(func@),
        forall|k: int| 0 <= k < list.len() ==> (#[trigger] list@[k])@.within(func@.blocks.len()),
    ensures
        r == plain_of(func@),
        r matches Some(n) ==> nest::nest_in(func@, n) && n.outer_initial >= 0,
{
    let ghost f = func@;
    let ghost views = loops::loops_of(f);
    let order = order_by_size(list, true);
    let n = order.len();
    for k in 0..n
        invariant
            n == order.len(),
            func@ == f,
            f.wf(),
            dom.of(f),
            views == loops::loops_view(list@),
            views == loops::loops_of(f),
            order@ == loops::size_order(views, true),
            forall|j: int| 0 <= j < order.len() ==> #[trigger] order@[j] < list.len(),
            forall|k: int| 0 <= k < list.len() ==> (#[trigger] list@[k])@.within(f.blocks.len()),
            plain_from(f, views, order@, 0) == plain_from(f, views, order@, k as int),
    {
        assert(views[order@[k as int] as int] == list@[order@[k as int] as int]@);
        if let Some(r) = plain_at_loop(func, dom, list, order[k]) {
            return Some(r);
        }
    }
    None
}

fn find_conditional_candidate(
    func: &Function,
    dom: &Dominators,
    list: &Vec<NaturalLoop>,
    max_factor: usize,
) -> (r: Option<(ConditionalNest, usize)>)
    requires
        func@.wf(),
        dom.of(func@),
        loops::loops_view(list@) == loops::loops_of(func@),
        forall|k: int| 0 <= k < list.len() ==> (#[trigger] list@[k])@.within(func@.blocks.len()),
    ensures
        r == conditional_of(func@, max_factor as int),
        r matches Some((c, factor)) ==> nest::nest_in(func@, c.nest) && func@.has_block(c.condition)
            && func@.has_block(c.update) && (factor == 2 || factor == 4),
{
    let ghost f = func@;
    let ghost views = loops::loops_of(f);
    let order = order_by_size(list, true);
    let n = order.len();
    for k in 0..n
        invariant
            n == order.len(),
            func@ == f,
            f.wf(),
            dom.of(f),
            views == loops::loops_view(list@),
            views == loops::loops_of(f),
            order@ == loops::size_order(views, true),
            forall|j: int| 0 <= j < order.len() ==> #[trigger] order@[j] < list.len(),
            forall|k: int| 0 <= k < list.len() ==> (#[trigger] list@[k])@.within(f.blocks.len()),
            conditional_from(f, views, order@, max_factor as int, 0) == conditional_from(
                f,
                views,
                order@,
                max_factor as int,
                k as int,
            ),
    {
        assert(views[order@[k as int] as int] == list@[order@[k as int] as int]@);
        if let Some(r) = conditional_at_loop(func, dom, list, order[k], max_factor) {
            return Some(r);
        }
    }
    None
}

/// Rewrites one nest of a function.
fn rewrite(func: &mut Function, max_factor: usize) -> (r: bool)
    requires
        old(func)@.wf(),
    ensures
        match rewritten(old(func)@, max_factor as int) {
            Some(g) => r && final(func)@ == g,
            None => !r && final(func)@ == old(func)@,
        },
{
    let ghost f = func@;
    if func.has_reduction_jam() || !is_small_function(func) {
        return false;
    }
    let graph = ControlFlowGraph::new(func);
    let dom = Dominators::new(func, &graph);
    let info = LoopInfo::new(func, &graph, &dom);
    let list = info.loops();
    let ghost views = loops::loops_of(f);
    assert forall|k: int| 0 <= k < list.len() implies (#[trigger] list@[k])@.within(
        f.blocks.len(),
    ) by {
        assert(views[k] == list@[k]@);
        loops::lemma_listed_loop(f, k);
    }
    if max_factor >= 4 {
        if let Some((c, factor)) = find_conditional_candidate(func, &dom, list, max_factor) {
            apply_conditional_candidate(func, c, factor);
            return true;
        }
    }
    match find_candidate(func, &dom, list) {
        Some(n) => match select_jam_factor(func, n, max_factor) {
            Some(factor) => {
                apply_candidate(func, n, factor);
                true
            },
            None => false,
        },
        None => false,
    }
}

/// Jams one nest of a function.
pub fn jam_one_nest_with_factor(func: &mut Function, max_factor: usize)
    requires
        old(func)@.wf(),
    ensures
        final(func)@ == jammed(old(func)@, max_factor as int),
        final(func)@.wf(),
{
    let before = func.clone();
    if rewrite(func, max_factor) {
        if func.verify().is_err() {
            *func = before;
        }
    }
}

/// The pass over all functions of a module.
pub struct ReductionJamPass {
    pub max_factor: usize,
}

impl ReductionJamPass {
    pub fn new(max_factor: usize) -> (r: Self)
        requires
            max_factor == 2 || max_factor == 4,
        ensures
            r.max_factor == max_factor,
    {
        ReductionJamPass { max_factor }
    }

    /// Jams one nest of every function.
    pub fn run(&self, module: &mut Module)
        requires
            old(module)@.wf(),
        ensures
            final(module)@ == jammed_module(old(module)@, self.max_factor as int),
            final(module)@.wf(),
    {
        let ghost m = module@;
        let ghost want = jammed_module(m, self.max_factor as int);
        let n = module.funcs.len();
        for k in 0..n
            invariant
                n == module.funcs.len(),
                n == m.funcs.len(),
                m.wf(),
                module@ == (ModuleView { funcs: module@.funcs, ..m }),
                want == jammed_module(m, self.max_factor as int),
                forall|j: int|
                    0 <= j < k ==> #[trigger] module@.funcs[j] == want.funcs[j]
                        && module@.funcs[j].wf(),
                forall|j: int| k <= j < n ==> #[trigger] module@.funcs[j] == m.funcs[j],
        {
            assert(module@.funcs[k as int] == m.funcs[k as int]);
            let ghost before = module@.funcs;
            jam_one_nest_with_factor(&mut module.funcs[k], self.max_factor);
            assert(module@.funcs =~= before.update(k as int, module.funcs@[k as int]@));
        }
        assert(module@.funcs =~= want.funcs);
    }
}

} // verus!
