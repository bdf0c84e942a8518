//! Simplification of integer operations by what is known of their operands.
//!
//! Three steps on each function: branches whose comparison an earlier branch has
//! decided go on constants; divisions by powers of two of numbers that a branch
//! has shown to be multiples become shifts; divisions of numbers that are
//! smaller than the divisor are replaced by their results.
pub mod conditions;
pub mod divisions;
pub mod laws;
pub mod ranges;

use vstd::arithmetic::div_mod;
use vstd::prelude::*;

use crate::cfg;
use crate::ir::{BlockId, FuncView, Function, Module, ModuleView};
use crate::pass::range_integer::conditions::fold_dominated_integer_conditions;
use crate::pass::range_integer::divisions::reduce_path_exact_power_of_two_divisions;
use crate::pass::range_integer::ranges::{collect_value_ranges, replace_divisions};
use crate::verify;

verus! {

// ---------------------------------------------------------------------------
// Mathematical model
// ---------------------------------------------------------------------------

/// The result of a step. One that would not be valid is discarded.
pub open spec fn kept(f: FuncView, g: FuncView) -> FuncView {
    if g == f || verify::valid(g) {
        g
    } else {
        f
    }
}

pub open spec fn conditions_step(f: FuncView) -> FuncView {
    kept(f, conditions::conditions_folded(f))
}

pub open spec fn divisions_step(f: FuncView) -> FuncView {
    kept(f, divisions::divisions_reduced(f))
}

pub open spec fn ranges_step(f: FuncView) -> FuncView {
    kept(f, ranges::divisions_replaced(f, ranges::ranges_of(f)))
}

/// The effect on one function.
pub open spec fn simplified(f: FuncView) -> FuncView {
    ranges_step(divisions_step(conditions_step(f)))
}

pub open spec fn simplified_module(m: ModuleView) -> ModuleView {
    ModuleView { funcs: m.funcs.map_values(|f: FuncView| simplified(f)), ..m }
}

// ---------------------------------------------------------------------------
// Executable functions
// ---------------------------------------------------------------------------

/// Restores the function where the result of a step is not valid.
fn keep_valid(func: &mut Function, before: Function)
    requires
        before@.wf(),
    ensures
        final(func)@ == kept(before@, old(func)@),
        final(func)@.wf(),
{
    if func.verify().is_err() {
        *func = before;
    }
}

/// Simplifies the integer operations of a function.
pub fn simplify_function(func: &mut Function)
    requires
        old(func)@.wf(),
    ensures
        final(func)@ == simplified(old(func)@),
        final(func)@.wf(),
{
    let before = func.clone();
    fold_dominated_integer_conditions(func);
    keep_valid(func, before);
    let before = func.clone();
    reduce_path_exact_power_of_two_divisions(func);
    keep_valid(func, before);
    let before = func.clone();
    let list = collect_value_ranges(func);
    replace_divisions(func, &list);
    keep_valid(func, before);
}

/// The pass over all functions of a module.
pub struct RangeIntegerSimplifyPass;

impl RangeIntegerSimplifyPass {
    pub fn new() -> (r: Self) {
        RangeIntegerSimplifyPass
    }

    /// Simplifies the integer operations of every function.
    pub fn run(&self, module: &mut Module)
        requires
            old(module)@.wf(),
        ensures
            final(module)@ == simplified_module(old(module)@),
            final(module)@.wf(),
    {
        let ghost m = module@;
        let ghost want = simplified_module(m);
        let n = module.funcs.len();
        for k in 0..n
            invariant
                n == module.funcs.len(),
                n == m.funcs.len(),
                m.wf(),
                module@ == (ModuleView { funcs: module@.funcs, ..m }),
                want == simplified_module(m),
                forall|j: int|
                    0 <= j < k ==> #[trigger] module@.funcs[j] == want.funcs[j]
                        && module@.funcs[j].wf(),
                forall|j: int| k <= j < n ==> #[trigger] module@.funcs[j] == m.funcs[j],
        {
            assert(module@.funcs[k as int] == m.funcs[k as int]);
            let ghost before = module@.funcs;
            simplify_function(&mut module.funcs[k]);
            assert(module@.funcs =~= before.update(k as int, module.funcs@[k as int]@));
        }
        assert(module@.funcs =~= want.funcs);
    }
}

// ---------------------------------------------------------------------------
// Laws
// ---------------------------------------------------------------------------

/// The quotient of integers, rounded towards zero.
pub open spec fn quotient(x: int, d: int) -> int {
    if (x >= 0) == (d >= 0) {
        ranges::size_of(x) / ranges::size_of(d)
    } else {
        -(ranges::size_of(x) / ranges::size_of(d))
    }
}

/// The remainder that goes with it.
pub open spec fn remainder(x: int, d: int) -> int {
    x - quotient(x, d) * d
}

/// A number that is smaller than the divisor has quotient zero and is its own
/// remainder.
pub proof fn small_numbers_need_no_division(x: int, d: int)
    requires
        d != 0,
        -ranges::size_of(d) < x < ranges::size_of(d),
    ensures
        quotient(x, d) == 0,
        remainder(x, d) == x,
{
    let (a, b) = (ranges::size_of(x), ranges::size_of(d));
    div_mod::lemma_small_mod(a as nat, b as nat);
    div_mod::lemma_fundamental_div_mod(a, b);
    assert(a / b == 0) by (nonlinear_arith)
        requires
            0 <= a < b,
            a == b * (a / b) + a % b,
            a % b == a,
    ;
}

/// A remainder lies in the range that its divisor tells.
pub proof fn remainders_lie_in_their_range(x: int, d: int)
    requires
        d != 0,
    ensures
        1 - ranges::size_of(d) <= remainder(x, d) <= ranges::size_of(d) - 1,
{
    let (a, b) = (ranges::size_of(x), ranges::size_of(d));
    div_mod::lemma_fundamental_div_mod(a, b);
    div_mod::lemma_mod_bound(a, b);
    let q = a / b;
    assert(b * q == q * b) by (nonlinear_arith);
    assert((-q) * d == -(q * d)) by (nonlinear_arith);
    assert(q * (-d) == -(q * d)) by (nonlinear_arith);
    if d < 0 {
        assert(b == -d);
    }
}

/// A multiple of a positive divisor has the same quotient, whichever way it is
/// rounded: so a division of a multiple of a power of two is a shift.
pub proof fn quotients_of_multiples_are_exact(x: int, d: int)
    requires
        d > 0,
        x % d == 0,
    ensures
        quotient(x, d) == x / d,
        quotient(x, d) * d == x,
{
    div_mod::lemma_fundamental_div_mod(x, d);
    let q = x / d;
    assert(x == q * d) by (nonlinear_arith)
        requires
            x == d * q,
    ;
    if x < 0 {
        assert(-x == (-q) * d + 0) by (nonlinear_arith)
            requires
                x == q * d,
        ;
        div_mod::lemma_fundamental_div_mod_converse(-x, d, -q, 0);
    }
}

/// A block whose only entry is an edge is always entered by that edge: so what
/// the branch has decided holds wherever the block has been passed.
pub proof fn a_sole_entry_is_always_taken(
    f: FuncView,
    path: Seq<BlockId>,
    to: BlockId,
    source: BlockId,
    region: BlockId,
    k: int,
)
    requires
        f.wf(),
        f.blocks.len() <= usize::MAX,
        conditions::is_sole_entry(f, source, region),
        cfg::walk(cfg::succ_lists(f), path, f.entry, to, None),
        0 < k < path.len(),
        path[k] == region,
    ensures
        path[k - 1] == source,
{
    let a = path[k - 1];
    let graph = cfg::succ_lists(f);
    assert(graph[path[k - 1].0 as int].contains(path[k - 1 + 1]));
    assert(a.0 < graph.len());
    assert(graph[a.0 as int] == cfg::succ_list(f.blocks[a.0 as int].terminator));
    assert(cfg::edge(f, a, region));
    cfg::lemma_preds_below(f, region, f.blocks.len() as int, a);
    assert(cfg::preds(f, region).contains(a));
    assert(seq![source].contains(a));
}

/// The pass keeps functions valid.
pub proof fn simplifying_keeps_validity(f: FuncView)
    requires
        verify::valid(f),
    ensures
        verify::valid(simplified(f)),
{
}

} // verus!
