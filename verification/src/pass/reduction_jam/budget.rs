//! How many lanes pay off.
use vstd::prelude::*;

use crate::ir::{BlockId, FuncView, Function};
use crate::pass::reduction_jam::cost;
use crate::pass::reduction_jam::cost::{
    estimate_conditional_jam_cost, estimate_jam_cost, plus, tally_block, Cost, CostView, Role,
    Tally, TallyView,
};
use crate::pass::reduction_jam::lanes;
use crate::pass::reduction_jam::lanes::proves_lane_independence;
use crate::pass::reduction_jam::nest;
use crate::pass::reduction_jam::nest::{ConditionalNest, Nest};

verus! {

pub const MAX_FACTOR_FOUR_POINTER_VALUES: usize = 12;

pub const MAX_FACTOR_FOUR_MAPPED_VALUES: usize = 96;

pub const MAX_FACTOR_FOUR_REGISTER_CANDIDATES: usize = 96;

pub const MAX_FACTOR_FOUR_CODE_GROWTH: usize = 128;

pub const MAX_FACTOR_FOUR_GROWTH_MULTIPLIER: usize = 5;

pub const MAX_FACTOR_FOUR_PEAK_LIVE_VALUES: usize = 20;

pub const MAX_CSE_KEYS: usize = 512;

pub const MAX_CSE_OPERANDS: usize = 4096;

pub const MAX_CSE_WORK: usize = 4194304;

pub const MAX_LIVE_VALUES: usize = 512;

pub const MAX_LIVENESS_WORK: usize = 262144;

pub const MAX_CONDITIONAL_POINTER_VALUES: usize = 10;

pub const MAX_CONDITIONAL_MAPPED_VALUES: usize = 64;

pub const MAX_CONDITIONAL_REGISTER_CANDIDATES: usize = 64;

pub const MAX_CONDITIONAL_CODE_GROWTH: usize = 96;

pub const MAX_CONDITIONAL_GROWTH_MULTIPLIER: usize = 4;

pub const MAX_CONDITIONAL_PEAK_LIVE_VALUES: usize = 20;

pub const MAX_CONDITIONAL_FACTOR_FOUR_POINTER_VALUES: usize = 20;

pub const MAX_CONDITIONAL_FACTOR_FOUR_PEAK_LIVE_VALUES: usize = 32;

pub const MAX_FUNCTION_BLOCKS: usize = 1024;

pub const MAX_FUNCTION_VALUES: usize = 8192;

pub const MAX_FUNCTION_INSTRUCTIONS: usize = 65536;

// ---------------------------------------------------------------------------
// The function as a whole
// ---------------------------------------------------------------------------

/// The number of instructions of the first `n` blocks.
pub open spec fn insts_below(f: FuncView, n: int) -> nat
    decreases n,
{
    if n <= 0 {
        0
    } else {
        insts_below(f, n - 1) + f.blocks[n - 1].insts.len()
    }
}

pub open spec fn insts_in(f: FuncView) -> nat {
    insts_below(f, f.blocks.len() as int)
}

pub fn count_insts(func: &Function) -> (r: u128)
    ensures
        cost::held(r, insts_in(func@)),
{
    let ghost f = func@;
    let mut total: u128 = 0;
    let n = func.blocks.len();
    for k in 0..n
        invariant
            f == func@,
            n == f.blocks.len(),
            cost::held(total, insts_below(f, k as int)),
    {
        let len = func.blocks[k].insts.len();
        assert(len == f.blocks[k as int].insts.len());
        total = plus(
            total,
            len as u128,
            Ghost(insts_below(f, k as int)),
            Ghost(len as nat),
        );
    }
    total
}

/// The function is small enough to be looked at.
pub open spec fn is_small(f: FuncView) -> bool {
    &&& f.blocks.len() <= MAX_FUNCTION_BLOCKS
    &&& f.values.len() <= MAX_FUNCTION_VALUES
    &&& insts_in(f) <= MAX_FUNCTION_INSTRUCTIONS
}

pub fn is_small_function(func: &Function) -> (r: bool)
    ensures
        r == is_small(func@),
{
    assert(func.blocks.len() == func@.blocks.len());
    assert(func.values.len() == func@.values.len());
    func.blocks.len() <= MAX_FUNCTION_BLOCKS && func.values.len() <= MAX_FUNCTION_VALUES
        && count_insts(func) <= MAX_FUNCTION_INSTRUCTIONS as u128
}

pub open spec fn blank_tally(f: FuncView) -> TallyView {
    let none = cost::no_marks(f.values.len());
    TallyView {
        instructions: 0,
        results: 0,
        setup_scalars: 0,
        keys: 0,
        key_operands: 0,
        sure_loads: 0,
        known: true,
        dependent: none,
        loaded: none,
        surely_loaded: none,
        external: none,
        crossing: none,
    }
}

/// The tally of the first `n` blocks of the function.
pub open spec fn tally_below(f: FuncView, n: int) -> TallyView
    decreases n,
{
    if n <= 0 {
        blank_tally(f)
    } else {
        cost::with_block(
            f,
            Seq::empty(),
            tally_below(f, n - 1),
            cost::plain_role(),
            BlockId((n - 1) as usize),
        )
    }
}

pub open spec fn tally_of(f: FuncView) -> TallyView {
    tally_below(f, f.blocks.len() as int)
}

fn tally_function(func: &Function) -> (r: Tally)
    requires
        func@.wf(),
    ensures
        cost::tallies(r, tally_of(func@)),
{
    let ghost f = func@;
    let size = func.values.len();
    assert(size == f.values.len());
    let mut t = Tally {
        instructions: 0,
        results: 0,
        setup_scalars: 0,
        keys: 0,
        key_operands: 0,
        sure_loads: 0,
        known: true,
        dependent: cost::blank(size),
        loaded: cost::blank(size),
        surely_loaded: cost::blank(size),
        external: cost::blank(size),
        crossing: cost::blank(size),
    };
    let role = Role { setup: false, exit: false, external: false, sure: true, crossing: None };
    let none: Vec<BlockId> = Vec::new();
    assert(none@ =~= Seq::empty());
    let n = func.blocks.len();
    for k in 0..n
        invariant
            f == func@,
            f.wf(),
            n == f.blocks.len(),
            role == cost::plain_role(),
            none@ == Seq::<BlockId>::empty(),
            cost::tallies(t, tally_below(f, k as int)),
            cost::marks_fit(tally_below(f, k as int), f.values.len()),
    {
        tally_block(
            func,
            &none,
            &mut t,
            role,
            BlockId(k),
            Ghost(tally_below(f, k as int)),
        );
    }
    t
}

// ---------------------------------------------------------------------------
// Limits
// ---------------------------------------------------------------------------

/// The result stays within what a function may hold.
pub open spec fn is_within_hard_budgets(
    f: FuncView,
    c: CostView,
    factor: nat,
    added_blocks: nat,
) -> bool {
    &&& f.blocks.len() + added_blocks <= MAX_FUNCTION_BLOCKS
    &&& f.values.len() + c.register_candidates + factor <= MAX_FUNCTION_VALUES
    &&& insts_in(f) + c.code_growth <= MAX_FUNCTION_INSTRUCTIONS
}

fn factor_is_within_hard_budgets(
    func: &Function,
    c: &Cost,
    factor: usize,
    added_blocks: usize,
    Ghost(v): Ghost<CostView>,
) -> (r: bool)
    requires
        cost::costs(*c, v),
        factor <= 4,
        added_blocks <= 16,
    ensures
        r == is_within_hard_budgets(func@, v, factor as nat, added_blocks as nat),
{
    assert(func.blocks.len() == func@.blocks.len());
    assert(func.values.len() == func@.values.len());
    if func.blocks.len() > MAX_FUNCTION_BLOCKS || func.values.len() > MAX_FUNCTION_VALUES {
        return false;
    }
    let insts = count_insts(func);
    let max = MAX_FUNCTION_INSTRUCTIONS as u128;
    if c.register_candidates > max || c.code_growth > max || insts > max {
        return false;
    }
    func.blocks.len() + added_blocks <= MAX_FUNCTION_BLOCKS && func.values.len() as u128
        + c.register_candidates + factor as u128 <= MAX_FUNCTION_VALUES as u128 && insts
        + c.code_growth <= max
}

/// The search for equal instructions stays cheap.
pub open spec fn is_within_cse_budget(f: FuncView, c: CostView) -> bool {
    let t = tally_of(f);
    let keys = t.keys + c.projected_cse_keys;
    let operands = t.key_operands + c.projected_cse_operands;
    &&& t.known
    &&& keys <= MAX_CSE_KEYS
    &&& operands <= MAX_CSE_OPERANDS
    &&& keys * operands <= MAX_CSE_WORK
}

fn cse_projection_within_budget(func: &Function, c: &Cost, Ghost(v): Ghost<CostView>) -> (r: bool)
    requires
        func@.wf(),
        cost::costs(*c, v),
    ensures
        r == is_within_cse_budget(func@, v),
{
    let t = tally_function(func);
    let ghost w = tally_of(func@);
    if !t.known {
        return false;
    }
    let keys = plus(t.keys, c.projected_cse_keys, Ghost(w.keys), Ghost(v.projected_cse_keys));
    let operands = plus(
        t.key_operands,
        c.projected_cse_operands,
        Ghost(w.key_operands),
        Ghost(v.projected_cse_operands),
    );
    if keys > MAX_CSE_KEYS as u128 || operands > MAX_CSE_OPERANDS as u128 {
        return false;
    }
    assert(keys * operands <= MAX_CSE_KEYS * MAX_CSE_OPERANDS) by (nonlinear_arith)
        requires
            keys <= MAX_CSE_KEYS,
            operands <= MAX_CSE_OPERANDS,
    ;
    keys * operands <= MAX_CSE_WORK as u128
}

/// What a choice of lanes may cost.
#[derive(Clone, Copy)]
pub struct Limits {
    pub pointer_values: usize,
    pub mapped_values: usize,
    pub register_candidates: usize,
    pub peak_live_values: usize,
    pub code_growth: usize,
    pub growth_multiplier: usize,
    pub spare_values: usize,
    pub added_blocks: usize,
}

pub open spec fn four_limits() -> Limits {
    Limits {
        pointer_values: MAX_FACTOR_FOUR_POINTER_VALUES,
        mapped_values: MAX_FACTOR_FOUR_MAPPED_VALUES,
        register_candidates: MAX_FACTOR_FOUR_REGISTER_CANDIDATES,
        peak_live_values: MAX_FACTOR_FOUR_PEAK_LIVE_VALUES,
        code_growth: MAX_FACTOR_FOUR_CODE_GROWTH,
        growth_multiplier: MAX_FACTOR_FOUR_GROWTH_MULTIPLIER,
        spare_values: 4,
        added_blocks: 5,
    }
}

pub open spec fn conditional_limits(factor: nat) -> Limits {
    if factor == 4 {
        Limits {
            pointer_values: MAX_CONDITIONAL_FACTOR_FOUR_POINTER_VALUES,
            mapped_values: MAX_FACTOR_FOUR_MAPPED_VALUES,
            register_candidates: MAX_FACTOR_FOUR_REGISTER_CANDIDATES,
            peak_live_values: MAX_CONDITIONAL_FACTOR_FOUR_PEAK_LIVE_VALUES,
            code_growth: MAX_FACTOR_FOUR_CODE_GROWTH,
            growth_multiplier: MAX_FACTOR_FOUR_GROWTH_MULTIPLIER,
            spare_values: 2,
            added_blocks: 16,
        }
    } else {
        Limits {
            pointer_values: MAX_CONDITIONAL_POINTER_VALUES,
            mapped_values: MAX_CONDITIONAL_MAPPED_VALUES,
            register_candidates: MAX_CONDITIONAL_REGISTER_CANDIDATES,
            peak_live_values: MAX_CONDITIONAL_PEAK_LIVE_VALUES,
            code_growth: MAX_CONDITIONAL_CODE_GROWTH,
            growth_multiplier: MAX_CONDITIONAL_GROWTH_MULTIPLIER,
            spare_values: 2,
            added_blocks: 10,
        }
    }
}

/// The cost stays within the limits; more than two lanes must share a load.
pub open spec fn pays(f: FuncView, c: CostView, factor: nat, l: Limits) -> bool {
    let values = f.values.len() + c.register_candidates + l.spare_values as nat;
    &&& is_within_hard_budgets(f, c, factor, l.added_blocks as nat)
    &&& factor == 2 || c.shared_load_streams > 0
    &&& c.pointer_values <= l.pointer_values
    &&& c.mapped_values <= l.mapped_values
    &&& c.register_candidates <= l.register_candidates
    &&& c.peak_live_values <= l.peak_live_values
    &&& is_within_cse_budget(f, c)
    &&& values <= MAX_LIVE_VALUES
    &&& (f.blocks.len() + l.added_blocks as nat) * values <= MAX_LIVENESS_WORK
    &&& c.code_growth <= l.code_growth
    &&& c.original_region * l.growth_multiplier as nat <= usize::MAX
    &&& c.code_growth <= c.original_region * l.growth_multiplier as nat
}

fn is_profitable(
    func: &Function,
    c: &Cost,
    factor: usize,
    l: Limits,
    Ghost(v): Ghost<CostView>,
) -> (r: bool)
    requires
        func@.wf(),
        cost::costs(*c, v),
        cost::is_finite(v),
        factor <= 4,
        l.added_blocks <= 16,
        l.spare_values <= 4,
        1 <= l.growth_multiplier <= 5,
    ensures
        r == pays(func@, v, factor as nat, l),
{
    if !factor_is_within_hard_budgets(func, c, factor, l.added_blocks, Ghost(v)) || !(factor == 2
        || c.shared_load_streams > 0) || c.pointer_values > l.pointer_values as u128
        || c.mapped_values > l.mapped_values as u128 || c.register_candidates
        > l.register_candidates as u128 || c.peak_live_values > l.peak_live_values as u128
        || c.code_growth > l.code_growth as u128 {
        return false;
    }
    assert(func.blocks.len() == func@.blocks.len());
    assert(func.values.len() == func@.values.len());
    let values = func.values.len() as u128 + c.register_candidates + l.spare_values as u128;
    if values > MAX_LIVE_VALUES as u128 {
        return false;
    }
    let blocks = func.blocks.len() as u128 + l.added_blocks as u128;
    assert(blocks * values <= MAX_FUNCTION_BLOCKS * MAX_LIVE_VALUES) by (nonlinear_arith)
        requires
            blocks <= MAX_FUNCTION_BLOCKS,
            values <= MAX_LIVE_VALUES,
    ;
    if blocks * values > MAX_LIVENESS_WORK as u128 {
        return false;
    }
    let k = l.growth_multiplier as u128;
    assert(c.original_region * k <= usize::MAX * 5) by (nonlinear_arith)
        requires
            c.original_region <= usize::MAX,
            1 <= k <= 5,
    ;
    let growth = c.original_region * k;
    growth <= usize::MAX as u128 && c.code_growth <= growth && cse_projection_within_budget(
        func,
        c,
        Ghost(v),
    )
}

// ---------------------------------------------------------------------------
// Choices
// ---------------------------------------------------------------------------

/// Four lanes pay off.
pub open spec fn four_pay(f: FuncView, n: Nest) -> bool {
    match cost::plain_cost(f, n, 4) {
        Some(c) => pays(f, c, 4, four_limits()),
        None => false,
    }
}

fn factor_four_is_profitable(func: &Function, n: Nest) -> (r: bool)
    requires
        func@.wf(),
        nest::nest_in(func@, n),
    ensures
        r == four_pay(func@, n),
{
    let l = Limits {
        pointer_values: MAX_FACTOR_FOUR_POINTER_VALUES,
        mapped_values: MAX_FACTOR_FOUR_MAPPED_VALUES,
        register_candidates: MAX_FACTOR_FOUR_REGISTER_CANDIDATES,
        peak_live_values: MAX_FACTOR_FOUR_PEAK_LIVE_VALUES,
        code_growth: MAX_FACTOR_FOUR_CODE_GROWTH,
        growth_multiplier: MAX_FACTOR_FOUR_GROWTH_MULTIPLIER,
        spare_values: 4,
        added_blocks: 5,
    };
    let ghost v = cost::plain_cost(func@, n, 4);
    match estimate_jam_cost(func, n, 4) {
        Some(c) => is_profitable(func, &c, 4, l, Ghost(v->0)),
        None => false,
    }
}

/// The number of rounds is known to be below `k`.
pub open spec fn too_few(n: Nest, k: int) -> bool {
    match n.outer_trip_count {
        Some(count) => count < k,
        None => false,
    }
}

/// Two lanes stay within what a function may hold.
pub open spec fn two_fit(f: FuncView, n: Nest) -> bool {
    match cost::plain_cost(f, n, 2) {
        Some(c) => is_within_hard_budgets(f, c, 2, 5),
        None => false,
    }
}

/// The number of lanes for a nest.
///
/// With four lanes the counter starts at a multiple of four, so it is at most
/// three below the largest integer in every round, and no lane's counter wraps
/// round.
pub open spec fn factor_of(f: FuncView, n: Nest, max_factor: int) -> Option<usize> {
    if too_few(n, 2) || !two_fit(f, n) {
        None
    } else if max_factor >= 4 && !too_few(n, 4) && n.outer_initial as int % 4 == 0 && four_pay(f, n)
        && lanes::lanes_are_independent(
        f,
        n.store_ptr,
        n.accumulator,
        n.outer_induction.phi,
        seq![n.inner_latch],
        4,
    ) {
        Some(4usize)
    } else {
        Some(2usize)
    }
}

pub fn select_jam_factor(func: &Function, n: Nest, max_factor: usize) -> (r: Option<usize>)
    requires
        func@.wf(),
        nest::nest_in(func@, n),
        n.outer_initial >= 0,
    ensures
        r == factor_of(func@, n, max_factor as int),
{
    if let Some(count) = n.outer_trip_count {
        if count < 2 {
            return None;
        }
    }
    let ghost v = cost::plain_cost(func@, n, 2);
    let c = estimate_jam_cost(func, n, 2)?;
    if !factor_is_within_hard_budgets(func, &c, 2, 5, Ghost(v->0)) {
        return None;
    }
    if max_factor < 4 || n.outer_initial % 4 != 0 {
        return Some(2);
    }
    if let Some(count) = n.outer_trip_count {
        if count < 4 {
            return Some(2);
        }
    }
    if !factor_four_is_profitable(func, n) {
        return Some(2);
    }
    let blocks = vec![n.inner_latch];
    assert(blocks@ =~= seq![n.inner_latch]);
    if !proves_lane_independence(
        func,
        n.store_ptr,
        n.accumulator,
        n.outer_induction.phi,
        &blocks,
        4,
    ) {
        return Some(2);
    }
    Some(4)
}

/// The lanes of a nest with a condition pay off.
pub open spec fn conditional_pays(f: FuncView, c: ConditionalNest, factor: nat) -> bool {
    match cost::conditional_cost(f, c, factor) {
        Some(v) => pays(f, v, factor, conditional_limits(factor)),
        None => false,
    }
}

pub fn conditional_factor_is_profitable(func: &Function, c: ConditionalNest, factor: usize) -> (r:
    bool)
    requires
        func@.wf(),
        nest::nest_in(func@, c.nest),
        func@.has_block(c.condition),
        func@.has_block(c.update),
        factor == 2 || factor == 4,
    ensures
        r == conditional_pays(func@, c, factor as nat),
{
    let l = if factor == 4 {
        Limits {
            pointer_values: MAX_CONDITIONAL_FACTOR_FOUR_POINTER_VALUES,
            mapped_values: MAX_FACTOR_FOUR_MAPPED_VALUES,
            register_candidates: MAX_FACTOR_FOUR_REGISTER_CANDIDATES,
            peak_live_values: MAX_CONDITIONAL_FACTOR_FOUR_PEAK_LIVE_VALUES,
            code_growth: MAX_FACTOR_FOUR_CODE_GROWTH,
            growth_multiplier: MAX_FACTOR_FOUR_GROWTH_MULTIPLIER,
            spare_values: 2,
            added_blocks: 16,
        }
    } else {
        Limits {
            pointer_values: MAX_CONDITIONAL_POINTER_VALUES,
            mapped_values: MAX_CONDITIONAL_MAPPED_VALUES,
            register_candidates: MAX_CONDITIONAL_REGISTER_CANDIDATES,
            peak_live_values: MAX_CONDITIONAL_PEAK_LIVE_VALUES,
            code_growth: MAX_CONDITIONAL_CODE_GROWTH,
            growth_multiplier: MAX_CONDITIONAL_GROWTH_MULTIPLIER,
            spare_values: 2,
            added_blocks: 10,
        }
    };
    let ghost v = cost::conditional_cost(func@, c, factor as nat);
    match estimate_conditional_jam_cost(func, c, factor) {
        Some(e) => is_profitable(func, &e, factor, l, Ghost(v->0)),
        None => false,
    }
}

/// The number of lanes for a nest with a condition.
pub open spec fn conditional_factor_of(f: FuncView, c: ConditionalNest, max_factor: int) -> usize {
    let n = c.nest;
    if max_factor >= 4 && n.outer_initial as int % 4 == 0 && lanes::lanes_are_independent(
        f,
        n.store_ptr,
        n.accumulator,
        n.outer_induction.phi,
        seq![c.condition, c.update],
        4,
    ) && conditional_pays(f, c, 4) {
        4
    } else {
        2
    }
}

pub fn select_conditional_jam_factor(func: &Function, c: ConditionalNest, max_factor: usize) -> (r:
    usize)
    requires
        func@.wf(),
        nest::nest_in(func@, c.nest),
        func@.has_block(c.condition),
        func@.has_block(c.update),
        c.nest.outer_initial >= 0,
    ensures
        r == conditional_factor_of(func@, c, max_factor as int),
        r == 2 || r == 4,
{
    let n = c.nest;
    if max_factor < 4 || n.outer_initial % 4 != 0 {
        return 2;
    }
    let blocks = vec![c.condition, c.update];
    assert(blocks@ =~= seq![c.condition, c.update]);
    if proves_lane_independence(
        func,
        n.store_ptr,
        n.accumulator,
        n.outer_induction.phi,
        &blocks,
        4,
    ) && conditional_factor_is_profitable(func, c, 4) {
        4
    } else {
        2
    }
}

} // verus!
