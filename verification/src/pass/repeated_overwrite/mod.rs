//! Elision of repeated overwrites.
//!
//! A counted loop first copies a complete square from a stable source into a
//! distinct destination, then calls a function that reads and updates only that
//! square and otherwise only reads. Every round starts from the same contents,
//! so all rounds but the last are unobservable: the counter starts at its last
//! value.
pub mod model;
pub mod search;

use vstd::prelude::*;

use crate::ir;
use crate::ir::{BlockId, Function, Inst, InstKind, Module, ModuleView, ValueId, ValueKind};
use crate::pass::repeated_overwrite::model::{Candidate, MAX_FUNCTIONS};
use crate::pass::repeated_overwrite::search::find_candidate;
use crate::util::get_or_add_i32_const;
use crate::verify;

verus! {

fn restart_entries(incomings: &Vec<(BlockId, ValueId)>, pred: BlockId, v: ValueId) -> (r: Vec<
    (BlockId, ValueId),
>)
    ensures
        r@ == incomings@.map_values(
            |e: (BlockId, ValueId)| model::entry_restarted(e, pred, v),
        ),
{
    let n = incomings.len();
    let mut r: Vec<(BlockId, ValueId)> = Vec::new();
    for k in 0..n
        invariant
            n == incomings.len(),
            r.len() == k,
            forall|j: int|
                0 <= j < k ==> #[trigger] r@[j] == model::entry_restarted(incomings@[j], pred, v),
    {
        let (p, w) = incomings[k];
        if p == pred {
            r.push((p, v));
        } else {
            r.push((p, w));
        }
    }
    assert(r@ =~= incomings@.map_values(
        |e: (BlockId, ValueId)| model::entry_restarted(e, pred, v),
    ));
    r
}

fn apply_candidate(func: &mut Function, c: Candidate)
    ensures
        final(func)@ == model::restarted(old(func)@, c),
{
    let v = get_or_add_i32_const(func, c.final_initial);
    if c.counter.0 >= func.values.len() {
        return ;
    }
    assert(func@.value(c.counter) == func.values@[c.counter.0 as int]@);
    if let ValueKind::Inst(b, i) = func.values[c.counter.0].kind {
        if b.0 < func.blocks.len() && i < func.blocks[b.0].insts.len() {
            let inst = &func.blocks[b.0].insts[i];
            assert(inst@ == func@.inst(b, i as int));
            if let InstKind::Phi { incomings } = &inst.kind {
                let list = restart_entries(incomings, c.entering, v);
                let result = inst.result;
                func.set_inst(b, i, Inst { result, kind: InstKind::Phi { incomings: list } });
            }
        }
    }
}

/// The pass over all functions of a module.
pub struct RepeatedOverwritePass;

impl RepeatedOverwritePass {
    pub fn new() -> (r: Self) {
        RepeatedOverwritePass
    }

    /// Elides the repeated overwrites of every function.
    pub fn run(&self, module: &mut Module)
        requires
            old(module)@.wf(),
        ensures
            final(module)@ == model::elided_module(old(module)@),
            final(module)@.wf(),
    {
        let ghost m = module@;
        if module.funcs.len() > MAX_FUNCTIONS {
            return ;
        }
        let snapshot = ir::clone_funcs(&module.funcs);
        let ghost want = model::elided_module(m);
        let n = module.funcs.len();
        assert forall|k: int| 0 <= k < snapshot.len() implies (#[trigger] snapshot@[k])@.wf() by {
            assert(ir::funcs_view(snapshot@)[k] == snapshot@[k]@);
            assert(m.funcs[k].wf());
        }
        for k in 0..n
            invariant
                n == module.funcs.len(),
                n == m.funcs.len(),
                m.wf(),
                n <= MAX_FUNCTIONS,
                ir::funcs_view(snapshot@) == m.funcs,
                forall|k: int| 0 <= k < snapshot.len() ==> (#[trigger] snapshot@[k])@.wf(),
                module@ == (ModuleView { funcs: module@.funcs, ..m }),
                want == model::elided_module(m),
                forall|j: int|
                    0 <= j < k ==> #[trigger] module@.funcs[j] == want.funcs[j]
                        && module@.funcs[j].wf(),
                forall|j: int| k <= j < n ==> #[trigger] module@.funcs[j] == m.funcs[j],
        {
            assert(module@.funcs[k as int] == m.funcs[k as int]);
            assert(module.funcs@[k as int]@ == module@.funcs[k as int]);
            let ghost before = module@.funcs;
            if let Some(c) = find_candidate(&module.funcs[k], &snapshot) {
                let mut func = module.funcs[k].clone();
                apply_candidate(&mut func, c);
                if func.verify().is_ok() {
                    module.funcs.set(k, func);
                }
            }
            assert(module@.funcs =~= before.update(k as int, module.funcs@[k as int]@));
        }
        assert(module@.funcs =~= want.funcs);
    }
}

} // verus!
