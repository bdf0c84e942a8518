//! Elements of arrays that a loop keeps in registers.
//!
//! Where every other access of a loop is proven to leave an element alone, a
//! value that is stored to it before the loop serves the reads in the loop; and
//! an element that the loop also writes lives in a local slot while the loop
//! runs.
pub mod forward;
pub mod path;
pub mod promote;

use vstd::prelude::*;

use crate::ir::{CompareOp, FuncView, Function, Module, ModuleView};
use crate::pass::loop_memory_promotion::forward::forward_preheader_stores_into_loops;
use crate::pass::loop_memory_promotion::promote::promote_elements;
use crate::patterns;
use crate::verify;

verus! {

/// The effect on one function.
pub open spec fn kept_in_registers(f: FuncView) -> FuncView {
    promote::elements_promoted(forward::stores_forwarded(f))
}

pub open spec fn promoted_module(m: ModuleView) -> ModuleView {
    ModuleView { funcs: m.funcs.map_values(|f: FuncView| kept_in_registers(f)), ..m }
}

/// Keeps elements of arrays in registers while the loops of a function run.
pub fn promote_function(func: &mut Function)
    requires
        old(func)@.wf(),
    ensures
        final(func)@ == kept_in_registers(old(func)@),
        final(func)@.wf(),
{
    forward_preheader_stores_into_loops(func);
    promote_elements(func);
}

/// The pass over all functions of a module.
pub struct LoopMemoryPromotionPass;

impl LoopMemoryPromotionPass {
    pub fn new() -> (r: Self) {
        LoopMemoryPromotionPass
    }

    /// Keeps elements of arrays in registers while the loops of every function run.
    pub fn run(&self, module: &mut Module)
        requires
            old(module)@.wf(),
        ensures
            final(module)@ == promoted_module(old(module)@),
            final(module)@.wf(),
    {
        let ghost m = module@;
        let ghost want = promoted_module(m);
        let n = module.funcs.len();
        for k in 0..n
            invariant
                n == module.funcs.len(),
                n == m.funcs.len(),
                m.wf(),
                module@ == (ModuleView { funcs: module@.funcs, ..m }),
                want == promoted_module(m),
                forall|j: int|
                    0 <= j < k ==> #[trigger] module@.funcs[j] == want.funcs[j]
                        && module@.funcs[j].wf(),
                forall|j: int| k <= j < n ==> #[trigger] module@.funcs[j] == m.funcs[j],
        {
            assert(module@.funcs[k as int] == m.funcs[k as int]);
            let ghost before = module@.funcs;
            promote_function(&mut module.funcs[k]);
            assert(module@.funcs =~= before.update(k as int, module.funcs@[k as int]@));
        }
        assert(module@.funcs =~= want.funcs);
    }
}


// ---------------------------------------------------------------------------
// Laws
// ---------------------------------------------------------------------------

proof fn lemma_rounds_valid(f: FuncView, fuel: nat)
    requires
        verify::valid(f),
    ensures
        verify::valid(promote::promote_rounds(f, fuel)),
    decreases fuel,
{
    if let Some(c) = promote::candidate_of(f) {
        if fuel > 0 && verify::valid(promote::promoted(f, c)) {
            lemma_rounds_valid(promote::promoted(f, c), (fuel - 1) as nat);
        }
    }
}

/// The pass keeps functions valid.
pub proof fn promotion_keeps_validity(f: FuncView)
    requires
        verify::valid(f),
    ensures
        verify::valid(kept_in_registers(f)),
{
    lemma_rounds_valid(
        forward::stores_forwarded(f),
        forward::MAX_PROMOTIONS_PER_FUNCTION as nat,
    );
}

/// A counter and the bound that a strict comparison keeps it from are different
/// numbers while the comparison holds.
pub proof fn strict_guards_separate(op: CompareOp, counter: int, bound: int)
    requires
        path::is_strict(op),
        patterns::compares(op, counter, bound),
    ensures
        counter != bound,
{
}

/// A counter that starts above a number and steps by one stays above it, and so
/// does the number after the counter.
pub proof fn counters_stay_above(target: int, start_above: int, rounds: nat, other_above: int)
    requires
        start_above > 0,
        0 <= other_above <= 1,
    ensures
        target + start_above + rounds + other_above > target,
{
}

/// An access of a loop: to the element that is kept in the slot, or to another
/// place.
pub enum Access {
    Read,
    Write(int),
    ReadOther(int),
    WriteOther(int, int),
}

/// What the reads return, from access `k` on, and the memory afterwards, where
/// all accesses go to memory and the element stands at `at`.
pub open spec fn run_in_memory(
    accesses: Seq<Access>,
    memory: Map<int, int>,
    at: int,
    k: int,
) -> (Seq<int>, Map<int, int>)
    decreases accesses.len() - k,
{
    if k < 0 || k >= accesses.len() {
        (Seq::empty(), memory)
    } else {
        match accesses[k] {
            Access::Read => {
                let (reads, last) = run_in_memory(accesses, memory, at, k + 1);
                (seq![memory[at]] + reads, last)
            },
            Access::Write(x) => run_in_memory(accesses, memory.insert(at, x), at, k + 1),
            Access::ReadOther(place) => {
                let (reads, last) = run_in_memory(accesses, memory, at, k + 1);
                (seq![memory[place]] + reads, last)
            },
            Access::WriteOther(place, x) => run_in_memory(
                accesses,
                memory.insert(place, x),
                at,
                k + 1,
            ),
        }
    }
}

/// The same, where the element lives in a slot: also what the slot holds
/// afterwards.
pub open spec fn run_with_slot(
    accesses: Seq<Access>,
    memory: Map<int, int>,
    slot: int,
    k: int,
) -> (Seq<int>, Map<int, int>, int)
    decreases accesses.len() - k,
{
    if k < 0 || k >= accesses.len() {
        (Seq::empty(), memory, slot)
    } else {
        match accesses[k] {
            Access::Read => {
                let (reads, last, held) = run_with_slot(accesses, memory, slot, k + 1);
                (seq![slot] + reads, last, held)
            },
            Access::Write(x) => run_with_slot(accesses, memory, x, k + 1),
            Access::ReadOther(place) => {
                let (reads, last, held) = run_with_slot(accesses, memory, slot, k + 1);
                (seq![memory[place]] + reads, last, held)
            },
            Access::WriteOther(place, x) => run_with_slot(
                accesses,
                memory.insert(place, x),
                slot,
                k + 1,
            ),
        }
    }
}

/// No other access touches the element.
pub open spec fn leaves_alone(access: Access, at: int) -> bool {
    match access {
        Access::ReadOther(place) => place != at,
        Access::WriteOther(place, _) => place != at,
        _ => true,
    }
}

/// Where no other access touches the element, the slot serves as well as memory:
/// all reads return the same, and with the slot written back memory is the same.
pub proof fn the_slot_serves_as_memory(
    accesses: Seq<Access>,
    memory: Map<int, int>,
    stale: Map<int, int>,
    at: int,
    k: int,
)
    requires
        0 <= k,
        forall|j: int| 0 <= j < accesses.len() ==> leaves_alone(#[trigger] accesses[j], at),
        memory.dom().contains(at),
        memory == stale.insert(at, memory[at]),
    ensures
        run_with_slot(accesses, stale, memory[at], k).0 == run_in_memory(
            accesses,
            memory,
            at,
            k,
        ).0,
        run_with_slot(accesses, stale, memory[at], k).1.insert(
            at,
            run_with_slot(accesses, stale, memory[at], k).2,
        ) == run_in_memory(accesses, memory, at, k).1,
    decreases accesses.len() - k,
{
    if k < accesses.len() {
        assert(leaves_alone(accesses[k], at));
        match accesses[k] {
            Access::Write(x) => {
                assert(memory.insert(at, x) =~= stale.insert(at, x));
                the_slot_serves_as_memory(accesses, memory.insert(at, x), stale, at, k + 1);
            },
            Access::WriteOther(place, x) => {
                assert(memory.insert(place, x) =~= stale.insert(place, x).insert(at, memory[at]));
                the_slot_serves_as_memory(
                    accesses,
                    memory.insert(place, x),
                    stale.insert(place, x),
                    at,
                    k + 1,
                );
            },
            _ => {
                the_slot_serves_as_memory(accesses, memory, stale, at, k + 1);
            },
        }
    }
}

} // verus!
