//! Grouping of odd/even recurrences.
//!
//! Every positive number is an odd number times a power of two. The recognized
//! recurrence takes one more successful step for each factor of two, while a
//! failed chain keeps returning the same value. So the chain of an odd number
//! is evaluated once, and what its multiples by powers of two contribute is
//! added up from it.
pub mod aggregate;
pub mod helper;
pub mod laws;
pub mod recognize;
pub mod run_laws;
pub mod shape;
pub mod steps;

use vstd::prelude::*;

use crate::ir::{
    CompareOp, Const, FuncView, Function, Global, GlobalView, InstKind, KindView, Module,
    ModuleView, Terminator, Type, ValueId,
};
use crate::names;
use crate::names::{unique_func_name, unique_global_name};
use crate::pass::odd_chain_group::aggregate::{recognize_aggregate, NamedSpec, NamedView};
use crate::pass::odd_chain_group::helper::{build_grouped_helper, cache_type};
use crate::pass::odd_chain_group::recognize::{recognize_recurrence, AggregatePlan, SAFE_LIMIT};
use crate::patterns;
use crate::patterns::{append_comparison, replace_uses_from};
use crate::util;
use crate::util::{get_or_add_i32_const, ValueMap};
use crate::verify;

verus! {

/// The function with the sum taken from the helper, where the limit allows.
pub open spec fn grouped(f: FuncView, p: AggregatePlan, helper: Seq<char>) -> FuncView {
    let fast = f.next_block();
    let f1 = f.add_block("odd.chain.grouped"@);
    let max_limit = util::const_value(f1, Const::Int(SAFE_LIMIT));
    let f2 = util::with_const(f1, Const::Int(SAFE_LIMIT));
    let limit = f2.next_value();
    let f3 = f2.append(p.preheader, KindView::Load { ptr: p.limit_ptr }, Type::I32);
    let allowed = f3.next_value();
    let f4 = patterns::with_comparison(f3, p.preheader, CompareOp::Le, limit, max_limit);
    let result = f4.next_value();
    let f5 = f4.append(fast, KindView::Call { name: helper, args: seq![limit] }, Type::I32);
    let f6 = f5.with_terminator(
        p.preheader,
        Some(Terminator::Branch { cond: allowed, then_target: fast, else_target: p.header }),
    ).with_terminator(fast, Some(Terminator::Jump(p.exit)));
    let merged = f6.next_value();
    let f7 = f6.insert(
        p.exit,
        0,
        KindView::Phi { incomings: seq![(p.exit_pred, p.accumulator), (fast, result)] },
        Some(Type::I32),
    );
    patterns::uses_replaced_from(
        f7,
        p.exit,
        1,
        Map::<ValueId, ValueId>::empty().insert(p.accumulator, merged),
    )
}

fn apply_plan(func: &mut Function, p: AggregatePlan, helper: &String)
    requires
        old(func)@.wf(),
        aggregate::plan_in(old(func)@, p),
    ensures
        final(func)@ == grouped(old(func)@, p, helper@),
{
    assert(func.blocks.len() == func@.blocks.len());
    let fast = func.add_block("odd.chain.grouped");
    assert(func.blocks.len() == func@.blocks.len());
    let max_limit = get_or_add_i32_const(func, SAFE_LIMIT);
    assert(func.values.len() == func@.values.len());
    let limit = func.append_value(p.preheader, InstKind::Load { ptr: p.limit_ptr }, Type::I32);
    assert(func.values.len() == func@.values.len());
    let allowed = append_comparison(func, p.preheader, CompareOp::Le, limit, max_limit);
    assert(func.values.len() == func@.values.len());
    let args = vec![limit];
    assert(args@ =~= seq![limit]);
    let result = func.append_value(
        fast,
        InstKind::Call { name: helper.clone(), args },
        Type::I32,
    );
    assert(func.values.len() == func@.values.len());
    func.set_terminator(
        p.preheader,
        Terminator::Branch { cond: allowed, then_target: fast, else_target: p.header },
    );
    func.set_terminator(fast, Terminator::Jump(p.exit));
    let entries = vec![(p.exit_pred, p.accumulator), (fast, result)];
    assert(entries@ =~= seq![(p.exit_pred, p.accumulator), (fast, result)]);
    let merged = func.insert_inst(
        p.exit,
        0,
        InstKind::Phi { incomings: entries },
        Some(Type::I32),
    );
    assert(func.values.len() == func@.values.len());
    if let Some(merged) = merged {
        let mut map = ValueMap::new();
        map.insert(p.accumulator, merged);
        replace_uses_from(func, p.exit, 1, &map);
    }
}

/// The recurrences among the first `n` functions.
pub open spec fn specs_below(m: ModuleView, n: int) -> Seq<NamedView>
    decreases n,
{
    if n <= 0 {
        Seq::empty()
    } else {
        let before = specs_below(m, n - 1);
        match recognize::recurrence_of(m.funcs[n - 1]) {
            Some(recurrence) => before.push(NamedView { name: m.funcs[n - 1].name, recurrence }),
            None => before,
        }
    }
}

/// The recurrences of the module.
pub open spec fn specs_of(m: ModuleView) -> Seq<NamedView> {
    specs_below(m, m.funcs.len() as int)
}

fn collect_specs(module: &Module) -> (r: Vec<NamedSpec>)
    requires
        module@.wf(),
    ensures
        aggregate::specs_view(r@) == specs_of(module@),
{
    let n = module.funcs.len();
    let mut r: Vec<NamedSpec> = Vec::new();
    assert(aggregate::specs_view(r@) =~= Seq::<NamedView>::empty());
    for k in 0..n
        invariant
            n == module.funcs.len(),
            module@.wf(),
            aggregate::specs_view(r@) == specs_below(module@, k as int),
    {
        let func = &module.funcs[k];
        assert(module@.funcs[k as int] == func@);
        if let Some(recurrence) = recognize_recurrence(func) {
            let ghost before = aggregate::specs_view(r@);
            let named = NamedSpec { name: func.name.clone(), recurrence };
            r.push(named);
            assert(aggregate::specs_view(r@) =~= before.push(named@));
        }
    }
    r
}

/// A function and the loop in it to replace.
#[derive(Clone, Copy, PartialEq, Eq, Structural)]
pub struct Place {
    pub func: usize,
    pub plan: AggregatePlan,
}

/// The loops to replace among the first `n` functions.
pub open spec fn places_below(m: ModuleView, specs: Seq<NamedView>, n: int) -> Seq<Place>
    decreases n,
{
    if n <= 0 {
        Seq::empty()
    } else {
        let before = places_below(m, specs, n - 1);
        match aggregate::aggregate_of(m.funcs[n - 1], specs) {
            Some(plan) => before.push(Place { func: (n - 1) as usize, plan }),
            None => before,
        }
    }
}

/// The loops to replace.
pub open spec fn places_of(m: ModuleView) -> Seq<Place> {
    places_below(m, specs_of(m), m.funcs.len() as int)
}

fn collect_places(module: &Module, specs: &Vec<NamedSpec>) -> (r: Vec<Place>)
    requires
        module@.wf(),
        aggregate::specs_view(specs@) == specs_of(module@),
    ensures
        r@ == places_of(module@),
        forall|j: int|
            0 <= j < r.len() ==> (#[trigger] r@[j]).func < module@.funcs.len()
                && aggregate::plan_in(module@.funcs[r@[j].func as int], r@[j].plan),
        forall|i: int, j: int|
            0 <= i < j < r.len() ==> (#[trigger] r@[i]).func < (#[trigger] r@[j]).func,
{
    let n = module.funcs.len();
    let mut r: Vec<Place> = Vec::new();
    for k in 0..n
        invariant
            n == module.funcs.len(),
            n == module@.funcs.len(),
            module@.wf(),
            aggregate::specs_view(specs@) == specs_of(module@),
            r@ == places_below(module@, specs_of(module@), k as int),
            forall|j: int|
                0 <= j < r.len() ==> (#[trigger] r@[j]).func < k && aggregate::plan_in(
                    module@.funcs[r@[j].func as int],
                    r@[j].plan,
                ),
            forall|i: int, j: int|
                0 <= i < j < r.len() ==> (#[trigger] r@[i]).func < (#[trigger] r@[j]).func,
    {
        let func = &module.funcs[k];
        assert(module@.funcs[k as int] == func@);
        if let Some(plan) = recognize_aggregate(func, specs) {
            r.push(Place { func: k, plan });
        }
    }
    r
}

/// The name of the helper for the loop with the given number.
pub open spec fn helper_name(m: ModuleView, ordinal: nat) -> Seq<char> {
    let prefix = "__odd_chain_grouped_"@;
    prefix + names::decimal(names::free_number(names::func_names(m), prefix, ordinal))
}

/// The name of the cache for the loop with the given number.
pub open spec fn cache_name(m: ModuleView, ordinal: nat) -> Seq<char> {
    let prefix = "__odd_chain_cache_"@;
    prefix + names::decimal(names::free_number(names::global_names(m), prefix, ordinal))
}

/// The module with one loop replaced. A result that would not be valid is
/// discarded.
pub open spec fn with_group(m: ModuleView, place: Place, ordinal: nat) -> ModuleView {
    let name = helper_name(m, ordinal);
    let cache = cache_name(m, ordinal);
    let built = helper::grouped_helper(name, place.plan.modulus, cache, place.plan.kind);
    let changed = grouped(m.funcs[place.func as int], place.plan, name);
    if verify::valid(built) && verify::valid(changed) {
        ModuleView {
            globals: m.globals.push(
                GlobalView {
                    name: cache,
                    ty: helper::cache_ty(),
                    is_const: false,
                    init: Some(Const::Zero(helper::cache_ty())),
                },
            ),
            funcs: m.funcs.push(built).update(place.func as int, changed),
        }
    } else {
        m
    }
}

/// The module with the first `n` loops replaced.
pub open spec fn with_groups(m: ModuleView, places: Seq<Place>, n: int) -> ModuleView
    decreases n,
{
    if n <= 0 {
        m
    } else {
        with_group(with_groups(m, places, n - 1), places[n - 1], (n - 1) as nat)
    }
}

/// The effect of the pass.
pub open spec fn grouped_module(m: ModuleView) -> ModuleView {
    with_groups(m, places_of(m), places_of(m).len() as int)
}

fn apply_group(module: &mut Module, place: Place, ordinal: usize)
    requires
        old(module)@.wf(),
        place.func < old(module)@.funcs.len(),
        aggregate::plan_in(old(module)@.funcs[place.func as int], place.plan),
    ensures
        final(module)@ == with_group(old(module)@, place, ordinal as nat),
        final(module)@.wf(),
        final(module)@.funcs.len() >= old(module)@.funcs.len(),
        forall|j: int|
            0 <= j < old(module)@.funcs.len() && j != place.func
                ==> #[trigger] final(module)@.funcs[j] == old(module)@.funcs[j],
{
    let ghost m = module@;
    let name = unique_func_name(module, "__odd_chain_grouped_", ordinal);
    let cache = unique_global_name(module, "__odd_chain_cache_", ordinal);
    let built = build_grouped_helper(
        name.as_str(),
        place.plan.modulus,
        cache.as_str(),
        place.plan.kind,
    );
    assert(module@.funcs[place.func as int] == module.funcs@[place.func as int]@);
    let mut changed = module.funcs[place.func].clone();
    apply_plan(&mut changed, place.plan, &name);
    if built.verify().is_ok() && changed.verify().is_ok() {
        let ty = cache_type();
        let global = Global {
            name: cache,
            ty: ty.clone(),
            is_const: false,
            init: Some(Const::Zero(ty)),
        };
        let ghost want = with_group(m, place, ordinal as nat);
        module.globals.push(global);
        module.funcs.push(built);
        module.funcs.set(place.func, changed);
        assert(module@.globals =~= want.globals);
        assert(module@.funcs =~= want.funcs);
    }
}

/// The pass over a module.
pub struct OddChainGroupPass;

impl OddChainGroupPass {
    pub fn new() -> (r: Self) {
        OddChainGroupPass
    }

    /// Replaces the loops that sum a recurrence.
    pub fn run(&self, module: &mut Module)
        requires
            old(module)@.wf(),
        ensures
            final(module)@ == grouped_module(old(module)@),
            final(module)@.wf(),
    {
        let ghost m = module@;
        let specs = collect_specs(module);
        let places = collect_places(module, &specs);
        let n = places.len();
        for k in 0..n
            invariant
                n == places.len(),
                places@ == places_of(m),
                module@ == with_groups(m, places@, k as int),
                module@.wf(),
                module@.funcs.len() >= m.funcs.len(),
                forall|j: int|
                    0 <= j < places.len() ==> (#[trigger] places@[j]).func < m.funcs.len()
                        && aggregate::plan_in(m.funcs[places@[j].func as int], places@[j].plan),
                forall|i: int, j: int|
                    0 <= i < j < places.len() ==> (#[trigger] places@[i]).func < (
                    #[trigger] places@[j]).func,
                forall|j: int, x: int|
                    k <= j < places.len() && x == (#[trigger] places@[j]).func
                        ==> #[trigger] module@.funcs[x] == m.funcs[x],
        {
            let ghost before = module@;
            let place = places[k];
            assert(before.funcs[place.func as int] == m.funcs[place.func as int]);
            apply_group(module, place, k);
            assert forall|j: int, x: int|
                k + 1 <= j < places.len() && x == (#[trigger] places@[j]).func implies
            #[trigger] module@.funcs[x] == m.funcs[x] by {
                assert(places@[k as int].func < places@[j].func);
                assert(before.funcs[x] == m.funcs[x]);
            }
        }
    }
}

proof fn lemma_places_in(m: ModuleView, specs: Seq<NamedView>, n: int)
    requires
        n <= m.funcs.len() <= usize::MAX,
    ensures
        forall|j: int|
            0 <= j < places_below(m, specs, n).len() ==> (#[trigger] places_below(
                m,
                specs,
                n,
            )[j]).func < m.funcs.len(),
    decreases n,
{
    if n > 0 {
        lemma_places_in(m, specs, n - 1);
    }
}

proof fn lemma_groups_valid(m: ModuleView, places: Seq<Place>, n: int)
    requires
        verify::all_valid(m),
        n <= places.len(),
        forall|j: int| 0 <= j < places.len() ==> (#[trigger] places[j]).func < m.funcs.len(),
    ensures
        verify::all_valid(with_groups(m, places, n)),
        with_groups(m, places, n).funcs.len() >= m.funcs.len(),
    decreases n,
{
    if n > 0 {
        lemma_groups_valid(m, places, n - 1);
        let before = with_groups(m, places, n - 1);
        let after = with_groups(m, places, n);
        let k = places[n - 1].func as int;
        assert forall|j: int| 0 <= j < after.funcs.len() implies verify::valid(
            #[trigger] after.funcs[j],
        ) by {
            if j < before.funcs.len() && j != k {
                assert(after.funcs[j] == before.funcs[j]);
            }
        }
    }
}

/// The pass keeps functions valid, and adds valid ones.
pub proof fn grouping_keeps_validity(m: ModuleView)
    requires
        verify::all_valid(m),
        m.funcs.len() <= usize::MAX,
    ensures
        verify::all_valid(grouped_module(m)),
{
    lemma_places_in(m, specs_of(m), m.funcs.len() as int);
    lemma_groups_valid(m, places_of(m), places_of(m).len() as int);
}

} // verus!
