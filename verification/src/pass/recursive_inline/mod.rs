//! Inlining of functions with control flow, into themselves and into others.
pub mod analyze;
pub mod laws;
pub mod splice;

use vstd::prelude::*;

use crate::ir;
use crate::ir::{BlockId, FuncView, Function, FunctionId, InstKind, KindView, Module, ModuleView};
use crate::pass::recursive_inline::analyze::{
    analyze_callee, call_types_match, resolve_target, CallSite, Candidate, CandidateView, Growth,
};
use crate::pass::recursive_inline::splice::inline_call_site;
use crate::pass::simplify_cfg::dead_blocks;
use crate::pass::simplify_cfg::dead_blocks::reachable_blocks;
use crate::verify;

verus! {

pub const MAX_GENERAL_FUNCTION_GROWTH_INSTS: usize = 512;

pub const MAX_GENERAL_FUNCTION_GROWTH_BLOCKS: usize = 128;

pub const MAX_FUNCTION_GROWTH_INSTS: usize = 192;

pub const MAX_FUNCTION_GROWTH_BLOCKS: usize = 40;

pub const MAX_MODULE_GROWTH_INSTS: usize = 1024;

pub const MAX_MODULE_GROWTH_BLOCKS: usize = 256;

// ---------------------------------------------------------------------------
// Functions inlined into themselves
// ---------------------------------------------------------------------------

/// The functions of a module while they are expanded, and what has been added
/// to each and to all of them.
pub struct Expansion {
    pub funcs: Seq<FuncView>,
    pub growth: Seq<Growth>,
    pub total: Growth,
    pub changed: bool,
}

/// The limits of the call site, the function and the module allow one more
/// copy.
pub open spec fn allowed(s: Expansion, idx: int, growth: Growth) -> bool {
    analyze::site_fits(growth) && analyze::fits(
        s.growth[idx],
        growth,
        MAX_FUNCTION_GROWTH_INSTS,
        MAX_FUNCTION_GROWTH_BLOCKS,
    ) && analyze::fits(s.total, growth, MAX_MODULE_GROWTH_INSTS, MAX_MODULE_GROWTH_BLOCKS)
}

pub open spec fn site_tried(
    s: Expansion,
    idx: int,
    source: FuncView,
    growth: Growth,
    site: CallSite,
) -> Expansion {
    if allowed(s, idx, growth) {
        match splice::inlined(s.funcs[idx], source, site) {
            Some(g) => Expansion {
                funcs: s.funcs.update(idx, g),
                growth: s.growth.update(idx, analyze::grown(s.growth[idx], growth)),
                total: analyze::grown(s.total, growth),
                changed: true,
            },
            None => s,
        }
    } else {
        s
    }
}

/// The first `k` sites of the candidate, from the last one back.
pub open spec fn sites_tried(
    s: Expansion,
    idx: int,
    source: FuncView,
    c: CandidateView,
    k: int,
) -> Expansion
    decreases k,
{
    if k <= 0 {
        s
    } else {
        sites_tried(site_tried(s, idx, source, c.growth, c.sites[k - 1]), idx, source, c, k - 1)
    }
}

/// The first `n` functions, as they were at the start of the round.
pub open spec fn funcs_tried(
    s: Expansion,
    snapshots: Seq<FuncView>,
    eligible: Seq<bool>,
    n: int,
) -> Expansion
    decreases n,
{
    if n <= 0 {
        s
    } else {
        let before = funcs_tried(s, snapshots, eligible, n - 1);
        let id = FunctionId((n - 1) as usize);
        if eligible[n - 1] {
            match analyze::candidate_of(snapshots[n - 1], id, analyze::names_of(snapshots)) {
                Some(c) => sites_tried(before, n - 1, snapshots[n - 1], c, c.sites.len() as int),
                None => before,
            }
        } else {
            before
        }
    }
}

/// Rounds until one changes nothing, at most `n`.
pub open spec fn rounds(s: Expansion, eligible: Seq<bool>, n: nat) -> Expansion
    decreases n,
{
    if n == 0 {
        s
    } else {
        let t = funcs_tried(
            Expansion { changed: false, ..s },
            s.funcs,
            eligible,
            s.funcs.len() as int,
        );
        if t.changed {
            rounds(t, eligible, (n - 1) as nat)
        } else {
            t
        }
    }
}

/// The functions that have not been decided on and can be inlined into
/// themselves.
pub open spec fn eligible_of(funcs: Seq<FuncView>) -> Seq<bool> {
    Seq::new(
        funcs.len(),
        |i: int|
            !funcs[i].recursive_cfg_inline_decided && analyze::candidate_of(
                funcs[i],
                FunctionId(i as usize),
                analyze::names_of(funcs),
            ) is Some,
    )
}

pub open spec fn start(funcs: Seq<FuncView>) -> Expansion {
    Expansion {
        funcs,
        growth: Seq::new(funcs.len(), |i: int| analyze::no_growth()),
        total: analyze::no_growth(),
        changed: false,
    }
}

/// The decision is recorded even where the limits refused every site: a later
/// run must not spend a fresh budget on it.
pub open spec fn decided(funcs: Seq<FuncView>, eligible: Seq<bool>) -> Seq<FuncView> {
    Seq::new(
        funcs.len(),
        |i: int|
            if eligible[i] {
                FuncView { recursive_cfg_inline_decided: true, ..funcs[i] }
            } else {
                funcs[i]
            },
    )
}

/// The module with its functions inlined into themselves.
pub open spec fn expanded(m: ModuleView, n: nat) -> ModuleView {
    let eligible = eligible_of(m.funcs);
    ModuleView { funcs: decided(rounds(start(m.funcs), eligible, n).funcs, eligible), ..m }
}

/// Inlines functions into themselves.
pub struct RecursiveInlinePass {
    pub expansion_rounds: usize,
}

/// The vectors that hold an expansion.
pub open spec fn holds(
    funcs: Seq<Function>,
    growth: Seq<Growth>,
    total: Growth,
    changed: bool,
) -> Expansion {
    Expansion { funcs: ir::funcs_view(funcs), growth, total, changed }
}

pub open spec fn all_wf(funcs: Seq<FuncView>) -> bool {
    forall|k: int| 0 <= k < funcs.len() ==> (#[trigger] funcs[k]).wf()
}

#[verifier::loop_isolation(false)]
fn try_sites(
    funcs: &mut Vec<Function>,
    growth: &mut Vec<Growth>,
    total: &mut Growth,
    changed: &mut bool,
    idx: usize,
    source: &Function,
    candidate: &Candidate,
)
    requires
        all_wf(ir::funcs_view(old(funcs)@)),
        idx < old(funcs).len(),
        old(growth).len() == old(funcs).len(),
        verify::valid(source@),
    ensures
        holds(final(funcs)@, final(growth)@, *final(total), *final(changed)) == sites_tried(
            holds(old(funcs)@, old(growth)@, *old(total), *old(changed)),
            idx as int,
            source@,
            candidate@,
            candidate@.sites.len() as int,
        ),
        all_wf(ir::funcs_view(final(funcs)@)),
        final(growth).len() == final(funcs).len(),
        final(funcs).len() == old(funcs).len(),
{
    let ghost s0 = holds(funcs@, growth@, *total, *changed);
    let ghost n = funcs.len();
    let extra = candidate.growth;
    let mut k: usize = candidate.sites.len();
    while k > 0
        invariant
            funcs.len() == n,
            growth.len() == n,
            k <= candidate.sites.len(),
            all_wf(ir::funcs_view(funcs@)),
            sites_tried(s0, idx as int, source@, candidate@, candidate@.sites.len() as int)
                == sites_tried(
                holds(funcs@, growth@, *total, *changed),
                idx as int,
                source@,
                candidate@,
                k as int,
            ),
        decreases k,
    {
        let ghost s = holds(funcs@, growth@, *total, *changed);
        let site = candidate.sites[k - 1];
        k = k - 1;
        if extra.callsite_fits() && growth[idx].fits_with(
            extra,
            MAX_FUNCTION_GROWTH_INSTS,
            MAX_FUNCTION_GROWTH_BLOCKS,
        ) && total.fits_with(extra, MAX_MODULE_GROWTH_INSTS, MAX_MODULE_GROWTH_BLOCKS) {
            assert(s.funcs[idx as int] == funcs@[idx as int]@);
            let done = inline_call_site(&mut funcs[idx], source, site);
            assert(ir::funcs_view(funcs@) =~= s.funcs.update(idx as int, funcs@[idx as int]@));
            if done {
                let sum = growth[idx].plus(extra);
                growth[idx] = sum;
                *total = total.plus(extra);
                *changed = true;
            } else {
                assert(ir::funcs_view(funcs@) =~= s.funcs);
            }
        }
        assert(holds(funcs@, growth@, *total, *changed) == site_tried(
            s,
            idx as int,
            source@,
            extra,
            site,
        ));
    }
}

#[verifier::loop_isolation(false)]
fn run_expansion_round(
    funcs: &mut Vec<Function>,
    growth: &mut Vec<Growth>,
    total: &mut Growth,
    eligible: &Vec<bool>,
) -> (changed: bool)
    requires
        all_wf(ir::funcs_view(old(funcs)@)),
        old(growth).len() == old(funcs).len(),
        eligible.len() == old(funcs).len(),
    ensures
        holds(final(funcs)@, final(growth)@, *final(total), changed) == funcs_tried(
            holds(old(funcs)@, old(growth)@, *old(total), false),
            ir::funcs_view(old(funcs)@),
            eligible@,
            old(funcs).len() as int,
        ),
        all_wf(ir::funcs_view(final(funcs)@)),
        final(growth).len() == final(funcs).len(),
        final(funcs).len() == old(funcs).len(),
{
    let ghost s0 = holds(funcs@, growth@, *total, false);
    let snapshots = ir::clone_funcs(funcs);
    let ghost shots = ir::funcs_view(snapshots@);
    let n = snapshots.len();
    assert(shots.len() == funcs.len());
    let mut changed = false;
    for i in 0..n
        invariant
            funcs.len() == n,
            growth.len() == n,
            all_wf(ir::funcs_view(funcs@)),
            holds(funcs@, growth@, *total, changed) == funcs_tried(s0, shots, eligible@, i as int),
    {
        if eligible[i] {
            assert(shots[i as int] == snapshots@[i as int]@);
            if let Some(c) = Candidate::analyze(&snapshots[i], FunctionId(i), &snapshots) {
                try_sites(funcs, growth, total, &mut changed, i, &snapshots[i], &c);
            }
        }
    }
    changed
}

impl RecursiveInlinePass {
    /// One round.
    pub fn new() -> (r: Self)
        ensures
            r.expansion_rounds == 1,
    {
        RecursiveInlinePass { expansion_rounds: 1 }
    }

    /// The given number of rounds.
    pub fn with_rounds(expansion_rounds: usize) -> (r: Self)
        requires
            expansion_rounds > 0,
        ensures
            r.expansion_rounds == expansion_rounds,
    {
        RecursiveInlinePass { expansion_rounds }
    }

    /// Inlines the functions of a module into themselves.
    #[verifier::loop_isolation(false)]
    pub fn run(&self, module: &mut Module)
        requires
            old(module)@.wf(),
        ensures
            final(module)@ == expanded(old(module)@, self.expansion_rounds as nat),
            final(module)@.wf(),
    {
        let ghost m = module@;
        let ghost e = eligible_of(m.funcs);
        let n = module.funcs.len();
        let mut eligible: Vec<bool> = Vec::new();
        let mut growth: Vec<Growth> = Vec::new();
        for i in 0..n
            invariant
                module@ == m,
                n == m.funcs.len(),
                n == module.funcs.len(),
                eligible.len() == i,
                growth.len() == i,
                forall|j: int| 0 <= j < i ==> #[trigger] eligible@[j] == e[j],
                forall|j: int| 0 <= j < i ==> #[trigger] growth@[j] == analyze::no_growth(),
        {
            let func = &module.funcs[i];
            assert(func@ == m.funcs[i as int]);
            let found = !func.has_recursive_cfg_inline_decision() && Candidate::analyze(
                func,
                FunctionId(i),
                &module.funcs,
            ).is_some();
            eligible.push(found);
            growth.push(Growth { insts: 0, blocks: 0 });
        }
        assert(eligible@ =~= e);
        let mut total = Growth { insts: 0, blocks: 0 };
        let mut left: usize = self.expansion_rounds;
        let mut go_on = true;
        let mut last = false;
        assert(growth@ =~= start(m.funcs).growth);
        let ghost want = rounds(start(m.funcs), e, self.expansion_rounds as nat);
        while go_on && left > 0
            invariant
                module@ == (ModuleView { funcs: module@.funcs, ..m }),
                n == module.funcs.len(),
                growth.len() == n,
                all_wf(module@.funcs),
                go_on ==> want == rounds(
                    holds(module.funcs@, growth@, total, last),
                    e,
                    left as nat,
                ),
                !go_on ==> want.funcs == module@.funcs,
            decreases left,
        {
            let ghost globals = module@.globals;
            last = run_expansion_round(&mut module.funcs, &mut growth, &mut total, &eligible);
            left = left - 1;
            go_on = last;
        }
        let ghost after = module@;
        assert(want.funcs == after.funcs);
        for i in 0..n
            invariant
                n == module.funcs.len(),
                n == after.funcs.len(),
                module@ == (ModuleView { funcs: module@.funcs, ..m }),
                all_wf(module@.funcs),
                forall|j: int|
                    0 <= j < i ==> #[trigger] module@.funcs[j] == decided(after.funcs, e)[j],
                forall|j: int| i <= j < n ==> #[trigger] module@.funcs[j] == after.funcs[j],
        {
            assert(module@.funcs[i as int] == after.funcs[i as int]);
            if eligible[i] {
                let ghost before = module@.funcs;
                module.funcs[i].mark_recursive_cfg_inline_decision();
                assert(module@.funcs =~= before.update(i as int, module.funcs@[i as int]@));
            }
        }
        assert(module@.funcs =~= decided(after.funcs, e));
    }
}

// ---------------------------------------------------------------------------
// Functions inlined into others
// ---------------------------------------------------------------------------

/// A call to be inlined and the function that it calls.
#[derive(Clone, Copy, PartialEq, Eq, Structural, Debug)]
pub struct PlannedSite {
    pub site: CallSite,
    pub callee: FunctionId,
}

/// The call at position `i` of block `b` of function `c` may be inlined.
pub open spec fn planned_at(funcs: Seq<FuncView>, c: int, globals: bool, b: BlockId, i: int) -> Seq<
    PlannedSite,
> {
    let f = funcs[c];
    match (f.inst(b, i).result, f.inst(b, i).kind) {
        (Some(result), KindView::Call { name, args }) => match analyze::target_of(
            analyze::names_of(funcs),
            name,
        ) {
            Some(id) => if id.0 != c && analyze::callee_inlinable(funcs[id.0 as int], globals)
                && analyze::types_match(f, result, funcs[id.0 as int], args) && !(b == f.entry
                && analyze::has_unreachable(dead_blocks::live(f))) && analyze::site_fits(
                analyze::growth_of(funcs[id.0 as int]),
            ) {
                seq![PlannedSite { site: CallSite { block: b, at: i as usize, result }, callee: id }]
            } else {
                Seq::empty()
            },
            None => Seq::empty(),
        },
        _ => Seq::empty(),
    }
}

pub open spec fn planned_in_block(
    funcs: Seq<FuncView>,
    c: int,
    globals: bool,
    b: BlockId,
    n: int,
) -> Seq<PlannedSite>
    decreases n,
{
    if n <= 0 {
        Seq::empty()
    } else {
        planned_in_block(funcs, c, globals, b, n - 1) + planned_at(funcs, c, globals, b, n - 1)
    }
}

/// The calls in the reachable blocks among the first `n` that may be inlined.
pub open spec fn planned_below(funcs: Seq<FuncView>, c: int, globals: bool, n: int) -> Seq<
    PlannedSite,
>
    decreases n,
{
    if n <= 0 {
        Seq::empty()
    } else if dead_blocks::live(funcs[c])[n - 1] {
        let b = BlockId((n - 1) as usize);
        planned_below(funcs, c, globals, n - 1) + planned_in_block(
            funcs,
            c,
            globals,
            b,
            funcs[c].block(b).insts.len() as int,
        )
    } else {
        planned_below(funcs, c, globals, n - 1)
    }
}

/// What the first `n` planned calls add.
pub open spec fn plan_growth(funcs: Seq<FuncView>, plan: Seq<PlannedSite>, n: int) -> Growth
    decreases n,
{
    if n <= 0 {
        analyze::no_growth()
    } else {
        analyze::grown(
            plan_growth(funcs, plan, n - 1),
            analyze::growth_of(funcs[plan[n - 1].callee.0 as int]),
        )
    }
}

/// The plan of function `c`: all calls that may be inlined, or none if they
/// are too many.
pub open spec fn plan_of(funcs: Seq<FuncView>, c: int, globals: bool) -> Seq<PlannedSite> {
    let plan = planned_below(funcs, c, globals, funcs[c].blocks.len() as int);
    if analyze::fits(
        analyze::no_growth(),
        plan_growth(funcs, plan, plan.len() as int),
        MAX_GENERAL_FUNCTION_GROWTH_INSTS,
        MAX_GENERAL_FUNCTION_GROWTH_BLOCKS,
    ) {
        plan
    } else {
        Seq::empty()
    }
}

/// What the plans of the first `n` functions add.
pub open spec fn total_growth(funcs: Seq<FuncView>, globals: bool, n: int) -> Growth
    decreases n,
{
    if n <= 0 {
        analyze::no_growth()
    } else {
        let plan = plan_of(funcs, n - 1, globals);
        analyze::grown(
            total_growth(funcs, globals, n - 1),
            plan_growth(funcs, plan, plan.len() as int),
        )
    }
}

/// The function with the first `k` planned calls inlined, from the last one
/// back.
pub open spec fn plan_applied(
    f: FuncView,
    funcs: Seq<FuncView>,
    plan: Seq<PlannedSite>,
    k: int,
) -> FuncView
    decreases k,
{
    if k <= 0 {
        f
    } else {
        let p = plan[k - 1];
        let g = match splice::inlined(f, funcs[p.callee.0 as int], p.site) {
            Some(g) => g,
            None => f,
        };
        plan_applied(g, funcs, plan, k - 1)
    }
}

/// The module with functions inlined into their callers, if all plans together
/// stay within the limits.
pub open spec fn cfg_inlined(m: ModuleView, globals: bool) -> ModuleView {
    let funcs = m.funcs;
    if analyze::fits(
        analyze::no_growth(),
        total_growth(funcs, globals, funcs.len() as int),
        MAX_MODULE_GROWTH_INSTS,
        MAX_MODULE_GROWTH_BLOCKS,
    ) {
        ModuleView {
            funcs: Seq::new(
                funcs.len(),
                |c: int|
                    plan_applied(
                        funcs[c],
                        funcs,
                        plan_of(funcs, c, globals),
                        plan_of(funcs, c, globals).len() as int,
                    ),
            ),
            ..m
        }
    } else {
        m
    }
}

/// Inlines functions that only read into their callers.
pub struct CfgInlinePass {
    pub allow_global_loads: bool,
}

/// The growth of every function that may be inlined.
pub open spec fn callees(list: Seq<Option<Growth>>, funcs: Seq<FuncView>, globals: bool) -> bool {
    &&& list.len() == funcs.len()
    &&& forall|i: int|
        0 <= i < funcs.len() ==> #[trigger] list[i] == (if analyze::callee_inlinable(
            funcs[i],
            globals,
        ) {
            Some(analyze::growth_of(funcs[i]))
        } else {
            None
        })
}

pub open spec fn plan_in(plan: Seq<PlannedSite>, funcs: Seq<FuncView>) -> bool {
    forall|k: int|
        0 <= k < plan.len() ==> (#[trigger] plan[k]).callee.0 < funcs.len() && verify::valid(
            funcs[plan[k].callee.0 as int],
        )
}

fn plan_site(
    funcs: &Vec<Function>,
    growths: &Vec<Option<Growth>>,
    c: usize,
    has_dead: bool,
    b: BlockId,
    i: usize,
    Ghost(globals): Ghost<bool>,
) -> (r: Option<(PlannedSite, Growth)>)
    requires
        c < funcs.len(),
        ir::funcs_view(funcs@)[c as int].has_inst(b, i as int),
        has_dead == analyze::has_unreachable(dead_blocks::live(ir::funcs_view(funcs@)[c as int])),
        callees(growths@, ir::funcs_view(funcs@), globals),
    ensures
        match r {
            Some((p, g)) => {
                &&& planned_at(ir::funcs_view(funcs@), c as int, globals, b, i as int) == seq![p]
                &&& p.callee.0 < funcs.len()
                &&& verify::valid(ir::funcs_view(funcs@)[p.callee.0 as int])
                &&& g == analyze::growth_of(ir::funcs_view(funcs@)[p.callee.0 as int])
            },
            None => planned_at(ir::funcs_view(funcs@), c as int, globals, b, i as int) == Seq::<
                PlannedSite,
            >::empty(),
        },
{
    let ghost shots = ir::funcs_view(funcs@);
    let caller = &funcs[c];
    assert(caller@ == shots[c as int]);
    let inst = &caller.blocks[b.0].insts[i];
    assert(inst@ == caller@.inst(b, i as int));
    if let (Some(result), InstKind::Call { name, args }) = (inst.result, &inst.kind) {
        if let Some(id) = resolve_target(funcs, name) {
            assert(shots[id.0 as int] == funcs@[id.0 as int]@);
            if id.0 != c {
                if let Some(g) = growths[id.0] {
                    if call_types_match(caller, result, &funcs[id.0], args) && !(b == caller.entry
                        && has_dead) && g.callsite_fits() {
                        return Some(
                            (
                                PlannedSite {
                                    site: CallSite { block: b, at: i, result },
                                    callee: id,
                                },
                                g,
                            ),
                        );
                    }
                }
            }
        }
    }
    None
}

fn any_unmarked(marks: &Vec<bool>) -> (r: bool)
    ensures
        r == analyze::has_unreachable(marks@),
{
    let n = marks.len();
    for b in 0..n
        invariant
            n == marks.len(),
            forall|j: int| 0 <= j < b ==> #[trigger] marks@[j],
    {
        if !marks[b] {
            assert(!marks@[b as int]);
            return true;
        }
    }
    false
}

/// Adds the calls of one block that may be inlined, and what they add.
fn plan_block(
    funcs: &Vec<Function>,
    growths: &Vec<Option<Growth>>,
    c: usize,
    has_dead: bool,
    b: BlockId,
    sites: &mut Vec<PlannedSite>,
    growth: &mut Growth,
    Ghost(globals): Ghost<bool>,
)
    requires
        c < funcs.len(),
        ir::funcs_view(funcs@)[c as int].has_block(b),
        has_dead == analyze::has_unreachable(dead_blocks::live(ir::funcs_view(funcs@)[c as int])),
        callees(growths@, ir::funcs_view(funcs@), globals),
        *old(growth) == plan_growth(ir::funcs_view(funcs@), old(sites)@, old(sites).len() as int),
        plan_in(old(sites)@, ir::funcs_view(funcs@)),
    ensures
        final(sites)@ == old(sites)@ + planned_in_block(
            ir::funcs_view(funcs@),
            c as int,
            globals,
            b,
            ir::funcs_view(funcs@)[c as int].block(b).insts.len() as int,
        ),
        *final(growth) == plan_growth(
            ir::funcs_view(funcs@),
            final(sites)@,
            final(sites).len() as int,
        ),
        plan_in(final(sites)@, ir::funcs_view(funcs@)),
{
    let ghost shots = ir::funcs_view(funcs@);
    assert(funcs@[c as int]@ == shots[c as int]);
    let m = funcs[c].blocks[b.0].insts.len();
    let ghost before = sites@;
    assert(before + Seq::<PlannedSite>::empty() =~= before);
    for i in 0..m
        invariant
            c < funcs.len(),
            shots == ir::funcs_view(funcs@),
            shots[c as int].has_block(b),
            has_dead == analyze::has_unreachable(dead_blocks::live(shots[c as int])),
            callees(growths@, shots, globals),
            m == shots[c as int].block(b).insts.len(),
            sites@ == before + planned_in_block(shots, c as int, globals, b, i as int),
            *growth == plan_growth(shots, sites@, sites.len() as int),
            plan_in(sites@, shots),
    {
        let ghost middle = sites@;
        let ghost inner = planned_in_block(shots, c as int, globals, b, i as int);
        let ghost more = planned_at(shots, c as int, globals, b, i as int);
        assert((before + inner) + more =~= before + (inner + more));
        let found = plan_site(funcs, growths, c, has_dead, b, i, Ghost(globals));
        if let Some((p, g)) = found {
            sites.push(p);
            proof {
                assert(sites@ =~= middle + more);
                lemma_plan_growth_prefix(shots, middle, sites@, middle.len() as int);
                assert forall|k: int| 0 <= k < sites.len() implies (#[trigger] sites@[k]).callee.0
                    < shots.len() && verify::valid(shots[sites@[k].callee.0 as int]) by {
                    if k < middle.len() {
                        assert(sites@[k] == middle[k]);
                    }
                }
            }
            *growth = growth.plus(g);
        } else {
            assert(middle + more =~= middle);
        }
    }
}

/// The calls of function `c` that may be inlined, and what they add.
fn make_plan(
    funcs: &Vec<Function>,
    growths: &Vec<Option<Growth>>,
    c: usize,
    Ghost(globals): Ghost<bool>,
) -> (r: (Vec<PlannedSite>, Growth))
    requires
        all_wf(ir::funcs_view(funcs@)),
        c < funcs.len(),
        callees(growths@, ir::funcs_view(funcs@), globals),
    ensures
        r.0@ == plan_of(ir::funcs_view(funcs@), c as int, globals),
        r.1 == plan_growth(ir::funcs_view(funcs@), r.0@, r.0@.len() as int),
        plan_in(r.0@, ir::funcs_view(funcs@)),
{
    let ghost shots = ir::funcs_view(funcs@);
    let caller = &funcs[c];
    assert(caller@ == shots[c as int]);
    let reachable = reachable_blocks(caller);
    let has_dead = any_unmarked(&reachable);
    let mut sites: Vec<PlannedSite> = Vec::new();
    let mut growth = Growth { insts: 0, blocks: 0 };
    let n = caller.blocks.len();
    assert(sites@ =~= Seq::<PlannedSite>::empty());
    for x in 0..n
        invariant
            c < funcs.len(),
            shots == ir::funcs_view(funcs@),
            n == shots[c as int].blocks.len(),
            n == reachable.len(),
            reachable@ == dead_blocks::live(shots[c as int]),
            has_dead == analyze::has_unreachable(dead_blocks::live(shots[c as int])),
            callees(growths@, shots, globals),
            sites@ == planned_below(shots, c as int, globals, x as int),
            growth == plan_growth(shots, sites@, sites.len() as int),
            plan_in(sites@, shots),
    {
        if reachable[x] {
            plan_block(
                funcs,
                growths,
                c,
                has_dead,
                BlockId(x),
                &mut sites,
                &mut growth,
                Ghost(globals),
            );
        }
    }
    let zero = Growth { insts: 0, blocks: 0 };
    if zero.fits_with(
        growth,
        MAX_GENERAL_FUNCTION_GROWTH_INSTS,
        MAX_GENERAL_FUNCTION_GROWTH_BLOCKS,
    ) {
        (sites, growth)
    } else {
        let none: Vec<PlannedSite> = Vec::new();
        assert(none@ =~= Seq::<PlannedSite>::empty());
        (none, zero)
    }
}

proof fn lemma_plan_growth_prefix(
    funcs: Seq<FuncView>,
    a: Seq<PlannedSite>,
    b: Seq<PlannedSite>,
    n: int,
)
    requires
        n <= a.len() <= b.len(),
        forall|k: int| 0 <= k < a.len() ==> #[trigger] b[k] == a[k],
    ensures
        plan_growth(funcs, a, n) == plan_growth(funcs, b, n),
    decreases n,
{
    if n > 0 {
        lemma_plan_growth_prefix(funcs, a, b, n - 1);
        assert(b[n - 1] == a[n - 1]);
    }
}

fn apply_plan(func: &mut Function, snapshots: &Vec<Function>, plan: &Vec<PlannedSite>)
    requires
        old(func)@.wf(),
        plan_in(plan@, ir::funcs_view(snapshots@)),
    ensures
        final(func)@ == plan_applied(
            old(func)@,
            ir::funcs_view(snapshots@),
            plan@,
            plan.len() as int,
        ),
        final(func)@.wf(),
{
    let ghost shots = ir::funcs_view(snapshots@);
    let mut k: usize = plan.len();
    while k > 0
        invariant
            k <= plan.len(),
            func@.wf(),
            shots == ir::funcs_view(snapshots@),
            plan_in(plan@, shots),
            plan_applied(old(func)@, shots, plan@, plan.len() as int) == plan_applied(
                func@,
                shots,
                plan@,
                k as int,
            ),
        decreases k,
    {
        k = k - 1;
        let p = plan[k];
        assert(plan@[k as int].callee.0 < shots.len());
        assert(shots[p.callee.0 as int] == snapshots@[p.callee.0 as int]@);
        inline_call_site(func, &snapshots[p.callee.0], p.site);
    }
}

/// The growth of every function that may be inlined.
fn analyze_callees(funcs: &Vec<Function>, globals: bool) -> (r: Vec<Option<Growth>>)
    ensures
        callees(r@, ir::funcs_view(funcs@), globals),
{
    let ghost shots = ir::funcs_view(funcs@);
    let n = funcs.len();
    let mut growths: Vec<Option<Growth>> = Vec::new();
    for i in 0..n
        invariant
            n == funcs.len(),
            shots == ir::funcs_view(funcs@),
            growths.len() == i,
            forall|j: int|
                0 <= j < i ==> #[trigger] growths@[j] == (if analyze::callee_inlinable(
                    shots[j],
                    globals,
                ) {
                    Some(analyze::growth_of(shots[j]))
                } else {
                    None
                }),
    {
        assert(shots[i as int] == funcs@[i as int]@);
        growths.push(analyze_callee(&funcs[i], globals));
    }
    growths
}

/// The plans are those of the functions.
pub open spec fn plans_for(
    plans: Seq<Vec<PlannedSite>>,
    funcs: Seq<FuncView>,
    globals: bool,
) -> bool {
    forall|j: int|
        0 <= j < plans.len() ==> (#[trigger] plans[j])@ == plan_of(funcs, j, globals) && plan_in(
            plans[j]@,
            funcs,
        )
}

/// The plans of all functions, and what they add together.
fn make_plans(funcs: &Vec<Function>, growths: &Vec<Option<Growth>>, Ghost(globals): Ghost<bool>) -> (r:
    (Vec<Vec<PlannedSite>>, Growth))
    requires
        all_wf(ir::funcs_view(funcs@)),
        callees(growths@, ir::funcs_view(funcs@), globals),
    ensures
        r.0.len() == funcs.len(),
        plans_for(r.0@, ir::funcs_view(funcs@), globals),
        r.1 == total_growth(ir::funcs_view(funcs@), globals, funcs.len() as int),
{
    let ghost shots = ir::funcs_view(funcs@);
    let n = funcs.len();
    let mut plans: Vec<Vec<PlannedSite>> = Vec::new();
    let mut total = Growth { insts: 0, blocks: 0 };
    for c in 0..n
        invariant
            n == funcs.len(),
            shots == ir::funcs_view(funcs@),
            all_wf(shots),
            callees(growths@, shots, globals),
            plans.len() == c,
            total == total_growth(shots, globals, c as int),
            plans_for(plans@, shots, globals),
    {
        let (plan, growth) = make_plan(funcs, growths, c, Ghost(globals));
        let ghost before = plans@;
        plans.push(plan);
        assert(plans_for(plans@, shots, globals)) by {
            assert forall|j: int| 0 <= j < plans.len() implies (#[trigger] plans@[j])@ == plan_of(
                shots,
                j,
                globals,
            ) && plan_in(plans@[j]@, shots) by {
                if j < before.len() {
                    assert(plans@[j] == before[j]);
                }
            }
        }
        total = total.plus(growth);
    }
    (plans, total)
}

impl CfgInlinePass {
    pub fn new(allow_global_loads: bool) -> (r: Self)
        ensures
            r.allow_global_loads == allow_global_loads,
    {
        CfgInlinePass { allow_global_loads }
    }

    /// Inlines the functions of a module into their callers.
    pub fn run(&self, module: &mut Module)
        requires
            old(module)@.wf(),
        ensures
            final(module)@ == cfg_inlined(old(module)@, self.allow_global_loads),
            final(module)@.wf(),
    {
        let ghost m = module@;
        let ghost globals = self.allow_global_loads;
        let snapshots = ir::clone_funcs(&module.funcs);
        let ghost shots = ir::funcs_view(snapshots@);
        let n = snapshots.len();
        assert(shots == m.funcs);
        assert(n == shots.len());
        let growths = analyze_callees(&snapshots, self.allow_global_loads);
        let (plans, total) = make_plans(&snapshots, &growths, Ghost(globals));
        let zero = Growth { insts: 0, blocks: 0 };
        if !zero.fits_with(total, MAX_MODULE_GROWTH_INSTS, MAX_MODULE_GROWTH_BLOCKS) {
            return ;
        }
        let ghost want = cfg_inlined(m, globals);
        for c in 0..n
            invariant
                n == module.funcs.len(),
                n == m.funcs.len(),
                n == plans.len(),
                m.wf(),
                shots == m.funcs,
                shots == ir::funcs_view(snapshots@),
                want == cfg_inlined(m, globals),
                want.funcs == Seq::new(
                    shots.len(),
                    |c: int|
                        plan_applied(
                            shots[c],
                            shots,
                            plan_of(shots, c, globals),
                            plan_of(shots, c, globals).len() as int,
                        ),
                ),
                plans_for(plans@, shots, globals),
                module@ == (ModuleView { funcs: module@.funcs, ..m }),
                forall|j: int|
                    0 <= j < c ==> #[trigger] module@.funcs[j] == want.funcs[j]
                        && module@.funcs[j].wf(),
                forall|j: int| c <= j < n ==> #[trigger] module@.funcs[j] == m.funcs[j],
        {
            let ghost before = module@.funcs;
            assert(module@.funcs[c as int] == m.funcs[c as int]);
            assert(plans@[c as int]@ == plan_of(shots, c as int, globals));
            apply_plan(&mut module.funcs[c], &snapshots, &plans[c]);
            assert(module@.funcs =~= before.update(c as int, module.funcs@[c as int]@));
        }
        assert(module@.funcs =~= want.funcs);
    }
}

} // verus!
