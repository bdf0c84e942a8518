//! Memoization of reductions whose state alternates between two values.
//!
//! The outer loop sets `state = (i % period != 0) ? reset : state + delta`, with
//! the counter `i` starting at zero, a period of at least two, and the state
//! starting at `reset`. So the inner reduction runs with `reset` or with
//! `reset + delta` only: it runs once for each, and its results are reused.
pub mod apply;
pub mod recognize;
pub mod search;

use vstd::prelude::*;

use crate::ir::{FuncView, Function, Module, ModuleView};
use crate::pass::periodic_reduction_memoize::apply::apply_candidate;
use crate::pass::periodic_reduction_memoize::search::find_candidate;
use crate::verify;

verus! {

/// The effect on one function. A result that would not be valid is discarded.
pub open spec fn memoized(f: FuncView) -> FuncView {
    match recognize::candidate_of(f) {
        Some(c) => if verify::valid(apply::memoized(f, c)) {
            apply::memoized(f, c)
        } else {
            f
        },
        None => f,
    }
}

pub open spec fn memoized_module(m: ModuleView) -> ModuleView {
    ModuleView { funcs: m.funcs.map_values(|f: FuncView| memoized(f)), ..m }
}

/// Memoizes the reduction of a function.
pub fn memoize_function(func: &mut Function)
    requires
        old(func)@.wf(),
    ensures
        final(func)@ == memoized(old(func)@),
        final(func)@.wf(),
{
    if let Some(c) = find_candidate(func) {
        let before = func.clone();
        apply_candidate(func, c);
        if func.verify().is_err() {
            *func = before;
        }
    }
}

/// The pass over all functions of a module.
pub struct PeriodicReductionMemoizePass;

impl PeriodicReductionMemoizePass {
    pub fn new() -> (r: Self) {
        PeriodicReductionMemoizePass
    }

    /// Memoizes one reduction of every function.
    pub fn run(&self, module: &mut Module)
        requires
            old(module)@.wf(),
        ensures
            final(module)@ == memoized_module(old(module)@),
            final(module)@.wf(),
    {
        let ghost m = module@;
        let ghost want = memoized_module(m);
        let n = module.funcs.len();
        for k in 0..n
            invariant
                n == module.funcs.len(),
                n == m.funcs.len(),
                m.wf(),
                module@ == (ModuleView { funcs: module@.funcs, ..m }),
                want == memoized_module(m),
                forall|j: int|
                    0 <= j < k ==> #[trigger] module@.funcs[j] == want.funcs[j]
                        && module@.funcs[j].wf(),
                forall|j: int| k <= j < n ==> #[trigger] module@.funcs[j] == m.funcs[j],
        {
            assert(module@.funcs[k as int] == m.funcs[k as int]);
            let ghost before = module@.funcs;
            memoize_function(&mut module.funcs[k]);
            assert(module@.funcs =~= before.update(k as int, module.funcs@[k as int]@));
        }
        assert(module@.funcs =~= want.funcs);
    }
}

// ---------------------------------------------------------------------------
// Laws
// ---------------------------------------------------------------------------

/// The state with which the inner reduction runs in round `i`; `step` is the
/// addition.
pub open spec fn state_in<T>(reset: T, step: spec_fn(T) -> T, period: int, i: nat) -> T
    decreases i,
{
    if i as int % period != 0 {
        reset
    } else if i == 0 {
        step(reset)
    } else {
        step(state_in(reset, step, period, (i - 1) as nat))
    }
}

/// The state of a round is one of two, and which one the test of the round
/// tells; so a result that was computed under the same outcome of the test is
/// the result of the round.
pub proof fn state_is_one_of_two<T>(reset: T, step: spec_fn(T) -> T, period: int, i: nat)
    requires
        period >= 2,
    ensures
        i as int % period != 0 ==> state_in(reset, step, period, i) == reset,
        i as int % period == 0 ==> state_in(reset, step, period, i) == step(reset),
{
    reveal_with_fuel(state_in, 2);
    if i as int % period == 0 && i > 0 {
        let less = (i - 1) as nat;
        assert(less as int % period != 0) by (nonlinear_arith)
            requires
                period >= 2,
                i as int % period == 0,
                i > 0,
                less as int == i as int - 1,
        ;
    }
}

/// The pass keeps functions valid.
pub proof fn memoization_keeps_validity(f: FuncView)
    requires
        verify::valid(f),
    ensures
        verify::valid(memoized(f)),
{
}

} // verus!
