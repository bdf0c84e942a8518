//! Coalescing of pointers that walk side by side.
//!
//! Two pointers of a loop that move by the same step, and start a fixed number
//! of elements apart, stay that far apart. What is loaded and stored through the
//! one then goes through the other, moved by that distance.
pub mod address;
pub mod apply;
pub mod laws;
pub mod pairs;
pub mod plan;
pub mod types;

use vstd::prelude::*;

use crate::ir::{FuncView, Function, Module, ModuleView};
use crate::pass::pointer_recurrence_coalesce::apply::apply_plans;
use crate::pass::pointer_recurrence_coalesce::pairs::plan_coalescing;
use crate::pass::reduction_jam::cost;
use crate::pass::reduction_jam::cost::plus;
use crate::verify;

verus! {

pub const MAX_GLOBALS: usize = 8192;

pub const MAX_GLOBAL_NAME_BYTES: usize = 1048576;

// ---------------------------------------------------------------------------
// Mathematical model
// ---------------------------------------------------------------------------

/// The number of bytes of a name.
pub open spec fn name_bytes(name: Seq<char>) -> nat {
    (vstd::utf8::encode_utf8(name).len() as usize) as nat
}

/// The number of bytes of the names of the first `n` globals.
pub open spec fn bytes_below(m: ModuleView, n: int) -> nat
    decreases n,
{
    if n <= 0 {
        0
    } else {
        bytes_below(m, n - 1) + name_bytes(m.globals[n - 1].name)
    }
}

/// How many of the globals from place `k` on have the name.
pub open spec fn named_from(m: ModuleView, name: Seq<char>, k: int) -> nat
    decreases m.globals.len() - k,
{
    if k < 0 || k >= m.globals.len() {
        0
    } else {
        named_from(m, name, k + 1) + (if m.globals[k].name == name {
            1nat
        } else {
            0nat
        })
    }
}

/// The names that a single one of the first `n` globals has.
pub open spec fn unique_below(m: ModuleView, n: int) -> Seq<Seq<char>>
    decreases n,
{
    if n <= 0 {
        Seq::empty()
    } else if named_from(m, m.globals[n - 1].name, 0) == 1 {
        unique_below(m, n - 1).push(m.globals[n - 1].name)
    } else {
        unique_below(m, n - 1)
    }
}

/// The names that a single global has; none are looked at where there are too
/// many.
pub open spec fn unique_names(m: ModuleView) -> Seq<Seq<char>> {
    let n = m.globals.len() as int;
    if n <= MAX_GLOBALS && bytes_below(m, n) <= MAX_GLOBAL_NAME_BYTES {
        unique_below(m, n)
    } else {
        Seq::empty()
    }
}

/// The effect on one function. A result that would not be valid is discarded.
pub open spec fn coalesced(f: FuncView, unique: Seq<Seq<char>>) -> FuncView {
    let plans = pairs::plans_of(f, unique);
    if plans.len() == 0 {
        f
    } else {
        let g = apply::coalesced(f, plans);
        if verify::valid(g) {
            g
        } else {
            f
        }
    }
}

pub open spec fn coalesced_module(m: ModuleView) -> ModuleView {
    ModuleView {
        funcs: m.funcs.map_values(|f: FuncView| coalesced(f, unique_names(m))),
        ..m
    }
}

// ---------------------------------------------------------------------------
// Executable functions
// ---------------------------------------------------------------------------

fn count_bytes(module: &Module) -> (r: u128)
    ensures
        cost::held(r, bytes_below(module@, module@.globals.len() as int)),
{
    let ghost m = module@;
    let mut total: u128 = 0;
    let n = module.globals.len();
    for k in 0..n
        invariant
            m == module@,
            n == m.globals.len(),
            cost::held(total, bytes_below(m, k as int)),
    {
        assert(module.globals@[k as int]@ == m.globals[k as int]);
        let bytes = module.globals[k].name.as_str().len();
        total = plus(total, bytes as u128, Ghost(bytes_below(m, k as int)), Ghost(bytes as nat));
    }
    total
}

fn is_unique(module: &Module, name: &String) -> (r: bool)
    ensures
        r == (named_from(module@, name@, 0) == 1),
{
    let ghost m = module@;
    let mut count: usize = 0;
    let n = module.globals.len();
    for k in 0..n
        invariant
            m == module@,
            n == m.globals.len(),
            count <= k,
            named_from(m, name@, 0) == named_from(m, name@, k as int) + count,
    {
        assert(module.globals@[k as int]@ == m.globals[k as int]);
        if module.globals[k].name == *name {
            count = count + 1;
        }
    }
    count == 1
}

fn find_unique_names(module: &Module) -> (r: Vec<String>)
    ensures
        pairs::texts(r@) == unique_names(module@),
{
    let ghost m = module@;
    let mut list: Vec<String> = Vec::new();
    assert(pairs::texts(list@) =~= Seq::empty());
    let n = module.globals.len();
    if n > MAX_GLOBALS || count_bytes(module) > MAX_GLOBAL_NAME_BYTES as u128 {
        return list;
    }
    for k in 0..n
        invariant
            m == module@,
            n == m.globals.len(),
            pairs::texts(list@) == unique_below(m, k as int),
    {
        assert(module.globals@[k as int]@ == m.globals[k as int]);
        if is_unique(module, &module.globals[k].name) {
            let ghost before = pairs::texts(list@);
            list.push(module.globals[k].name.clone());
            assert(pairs::texts(list@) =~= before.push(m.globals[k as int].name));
        }
    }
    list
}

/// Coalesces the pointers of a function.
fn coalesce_function(func: &mut Function, unique: &Vec<String>)
    requires
        old(func)@.wf(),
    ensures
        final(func)@ == coalesced(old(func)@, pairs::texts(unique@)),
        final(func)@.wf(),
{
    let plans = plan_coalescing(func, unique);
    if plans.len() == 0 {
        return ;
    }
    let before = func.clone();
    apply_plans(func, &plans);
    if func.verify().is_err() {
        *func = before;
    }
}

/// The pass over all functions of a module.
pub struct PointerRecurrenceCoalescePass;

impl PointerRecurrenceCoalescePass {
    pub fn new() -> (r: Self) {
        PointerRecurrenceCoalescePass
    }

    /// Coalesces the pointers of every function.
    pub fn run(&self, module: &mut Module)
        requires
            old(module)@.wf(),
        ensures
            final(module)@ == coalesced_module(old(module)@),
            final(module)@.wf(),
    {
        let unique = find_unique_names(module);
        let ghost m = module@;
        let ghost want = coalesced_module(m);
        let n = module.funcs.len();
        for k in 0..n
            invariant
                n == module.funcs.len(),
                n == m.funcs.len(),
                m.wf(),
                module@ == (ModuleView { funcs: module@.funcs, ..m }),
                want == coalesced_module(m),
                pairs::texts(unique@) == unique_names(m),
                forall|j: int|
                    0 <= j < k ==> #[trigger] module@.funcs[j] == want.funcs[j]
                        && module@.funcs[j].wf(),
                forall|j: int| k <= j < n ==> #[trigger] module@.funcs[j] == m.funcs[j],
        {
            assert(module@.funcs[k as int] == m.funcs[k as int]);
            let ghost before = module@.funcs;
            coalesce_function(&mut module.funcs[k], &unique);
            assert(module@.funcs =~= before.update(k as int, module.funcs@[k as int]@));
        }
        assert(module@.funcs =~= want.funcs);
    }
}

} // verus!
