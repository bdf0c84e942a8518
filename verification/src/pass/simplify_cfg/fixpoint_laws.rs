//! What a simplified function has left to simplify: nothing.
use vstd::prelude::*;

use crate::cfg;
use crate::ir::{BlockId, FuncView, InstView, KindView, ValueId};
use crate::pass::simplify_cfg;
use crate::pass::simplify_cfg::branches;
use crate::pass::simplify_cfg::dead_blocks;
use crate::pass::simplify_cfg::if_convert;
use crate::pass::simplify_cfg::jump_thread;
use crate::pass::simplify_cfg::jump_thread::ThreadState;
use crate::pass::simplify_cfg::known_bits;
use crate::pass::simplify_cfg::known_bits::KnownBitFact;
use crate::util;
use crate::verify;

verus! {

// ---------------------------------------------------------------------------
// Steps that report no change
// ---------------------------------------------------------------------------

proof fn lemma_no_dead_edges(f: FuncView, g: FuncView, n: int)
    requires
        !branches::some_straight(f),
        0 <= n <= f.blocks.len(),
    ensures
        branches::without_dead_edges(f, g, n) == g,
    decreases n,
{
    if n > 0 {
        lemma_no_dead_edges(f, g, n - 1);
        assert(branches::straight(f, f.blocks[n - 1].terminator) == f.blocks[n - 1].terminator);
    }
}

proof fn lemma_branches_unchanged(f: FuncView)
    requires
        !branches::branch_step(f).1,
    ensures
        branches::branch_step(f).0 == f,
{
    lemma_no_dead_edges(f, branches::straightened(f), f.blocks.len() as int);
    assert(branches::straightened(f).blocks =~= f.blocks) by {
        assert forall|b: int| 0 <= b < f.blocks.len() implies (
        #[trigger] branches::straightened(f).blocks[b]) == f.blocks[b] by {
            assert(branches::straight(f, f.blocks[b].terminator) == f.blocks[b].terminator);
        }
    }
}

proof fn lemma_short_circuits_unchanged(
    f: FuncView,
    rejected: Seq<(usize, usize)>,
    attempts: int,
    changed: bool,
)
    ensures
        changed ==> if_convert::short_circuits(f, rejected, attempts, changed).1,
        !if_convert::short_circuits(f, rejected, attempts, changed).1
            ==> if_convert::short_circuits(f, rejected, attempts, changed).0 == f,
    decreases if_convert::MAX_IF_CONVERSIONS - attempts,
{
    if attempts < if_convert::MAX_IF_CONVERSIONS {
        if let Some(c) = if_convert::first_short_circuit(f, 0, rejected) {
            let g = if_convert::short_circuit_converted(f, c);
            lemma_short_circuits_unchanged(g, rejected, attempts + 1, true);
            lemma_short_circuits_unchanged(
                f,
                rejected.push((c.merge.0, c.phi_at)),
                attempts + 1,
                changed,
            );
        }
    }
}

proof fn lemma_updates_unchanged(
    f: FuncView,
    rejected: Seq<(usize, usize)>,
    attempts: int,
    changed: bool,
)
    ensures
        changed ==> if_convert::updates(f, rejected, attempts, changed).1,
        !if_convert::updates(f, rejected, attempts, changed).1 ==> if_convert::updates(
            f,
            rejected,
            attempts,
            changed,
        ).0 == f,
    decreases if_convert::MAX_IF_CONVERSIONS - attempts,
{
    if attempts < if_convert::MAX_IF_CONVERSIONS {
        if let Some(c) = if_convert::first_update(f, 0, rejected) {
            let g = if_convert::update_converted(f, c);
            lemma_updates_unchanged(g, rejected, attempts + 1, true);
            lemma_updates_unchanged(f, rejected.push((c.block.0, c.phi_at)), attempts + 1, changed);
        }
    }
}

proof fn lemma_phi_branches_unchanged(f: FuncView, g: FuncView, b: int, changed: bool)
    ensures
        changed ==> branches::thread_from(f, g, b, changed).1,
        !branches::thread_from(f, g, b, changed).1 ==> branches::thread_from(f, g, b, changed).0
            == g,
    decreases f.blocks.len() - b,
{
    if 0 <= b < f.blocks.len() {
        let id = BlockId(b as usize);
        lemma_phi_branches_unchanged(f, g, b + 1, changed);
        if let Some(p) = branches::phi_branch(f, id) {
            lemma_phi_branches_unchanged(f, branches::threaded(g, id, p), b + 1, true);
        }
    }
}

proof fn lemma_threads_unchanged(
    s: ThreadState,
    facts: Seq<KnownBitFact>,
    limit: nat,
    pred: int,
)
    ensures
        !jump_thread::threads_from(s, facts, limit, pred).1 ==> jump_thread::threads_from(
            s,
            facts,
            limit,
            pred,
        ).0.f == s.f,
    decreases s.f.blocks.len() - pred,
{
    if !(pred < 0 || pred >= s.f.blocks.len() || pred >= limit || s.budget == 0) {
        let id = BlockId(pred as usize);
        let next = ThreadState {
            attempted: s.attempted.push(id),
            budget: (s.budget - 1) as nat,
            ..s
        };
        lemma_threads_unchanged(s, facts, limit, pred + 1);
        lemma_threads_unchanged(next, facts, limit, pred + 1);
    }
}

proof fn lemma_kind_unmapped(kind: KindView, g: spec_fn(ValueId) -> ValueId)
    requires
        forall|v: ValueId| #[trigger] g(v) == v,
    ensures
        util::map_kind(kind, g) == kind,
{
    match kind {
        KindView::Phi { incomings } => {
            assert(util::map_incomings(incomings, g) =~= incomings);
        },
        KindView::Gep { base, indices } => {
            assert(indices.map_values(g) =~= indices);
        },
        KindView::Call { name, args } => {
            assert(args.map_values(g) =~= args);
        },
        _ => {},
    }
}

proof fn lemma_insts_not_trivial(
    insts: Seq<InstView>,
    n: int,
    base: Map<ValueId, ValueId>,
)
    requires
        0 <= n <= insts.len(),
        forall|i: int| 0 <= i < insts.len() ==> branches::trivial_phi(#[trigger] insts[i]) is None,
    ensures
        branches::insts_trivial(insts, n, base) == base,
    decreases n,
{
    if n > 0 {
        lemma_insts_not_trivial(insts, n - 1, base);
        assert(branches::trivial_phi(insts[n - 1]) is None);
    }
}

proof fn lemma_blocks_not_trivial(f: FuncView, n: int)
    requires
        0 <= n <= f.blocks.len(),
        !branches::has_trivial_phi(f, f.blocks.len() as int),
    ensures
        branches::blocks_trivial(f, n) == Map::<ValueId, ValueId>::empty(),
    decreases n,
{
    if n > 0 {
        lemma_blocks_not_trivial(f, n - 1);
        let insts = f.blocks[n - 1].insts;
        assert forall|i: int| 0 <= i < insts.len() implies branches::trivial_phi(
            #[trigger] insts[i],
        ) is None by {
            assert(f.blocks[n - 1].insts[i] == insts[i]);
        }
        lemma_insts_not_trivial(insts, insts.len() as int, Map::empty());
    }
}

proof fn lemma_trivial_unchanged(f: FuncView)
    requires
        !branches::trivial_step(f).1,
    ensures
        branches::trivial_step(f).0 == f,
{
    let map = branches::blocks_trivial(f, f.blocks.len() as int);
    lemma_blocks_not_trivial(f, f.blocks.len() as int);
    let rho = util::resolver(map, f.values.len());
    assert forall|v: ValueId| #[trigger] rho(v) == v by {
        assert(!map.contains_key(v));
    }
    let g = branches::trivial_step(f).0;
    assert forall|b: int| 0 <= b < f.blocks.len() implies (#[trigger] g.blocks[b])
        == f.blocks[b] by {
        let insts = f.blocks[b].insts;
        assert(g.blocks[b].insts =~= insts) by {
            assert forall|i: int| 0 <= i < insts.len() implies (#[trigger] g.blocks[b].insts[i])
                == insts[i] by {
                assert(branches::trivial_phi(f.blocks[b].insts[i]) is None);
                lemma_kind_unmapped(insts[i].kind, rho);
            }
        }
    }
    assert(g.blocks =~= f.blocks);
}

// ---------------------------------------------------------------------------
// Rounds that report no change
// ---------------------------------------------------------------------------

/// A round that reports no change leaves the function as it is, and finds
/// nothing to simplify in it.
proof fn lemma_round_unchanged(s: ThreadState, preserve: bool, limit: nat)
    requires
        !simplify_cfg::round(s, preserve, limit).1,
    ensures
        simplify_cfg::round(s, preserve, limit).0.f == s.f,
        !dead_blocks::remove_step(s.f).1,
        !branches::branch_step(s.f).1,
        !branches::trivial_step(s.f).1,
        simplify_cfg::early_steps(s.f) == (s.f, false),
        simplify_cfg::late_steps(s.f, preserve) == (s.f, false),
{
    let f = s.f;
    lemma_branches_unchanged(f);
    lemma_short_circuits_unchanged(f, Seq::empty(), 0, false);
    lemma_updates_unchanged(f, Seq::empty(), 0, false);
    lemma_phi_branches_unchanged(f, f, 0, false);
    if !preserve {
        lemma_threads_unchanged(
            s,
            known_bits::all_facts(s.f),
            limit,
            0,
        );
    }
    lemma_trivial_unchanged(f);
}

/// The state after a round.
#[verifier::opaque]
pub open spec fn next_state(s: ThreadState, preserve: bool, limit: nat) -> ThreadState {
    simplify_cfg::round(s, preserve, limit).0
}

/// The state after `n` rounds.
pub open spec fn state_after(s: ThreadState, preserve: bool, limit: nat, n: nat) -> ThreadState
    decreases n,
{
    if n == 0 {
        s
    } else {
        next_state(state_after(s, preserve, limit, (n - 1) as nat), preserve, limit)
    }
}

/// The state in which simplification begins.
pub open spec fn first_state(f: FuncView) -> ThreadState {
    ThreadState {
        f,
        attempted: Seq::empty(),
        budget: simplify_cfg::THREAD_ATTEMPTS as nat,
    }
}

/// Some round changes nothing before the rounds are used up.
pub open spec fn settles(f: FuncView, preserve: bool) -> bool {
    exists|n: nat|
        n < u64::MAX && !simplify_cfg::round(
            #[trigger] state_after(first_state(f), preserve, f.blocks.len(), n),
            preserve,
            f.blocks.len(),
        ).1
}

pub proof fn lemma_state_shifted(s: ThreadState, preserve: bool, limit: nat, n: nat)
    ensures
        state_after(next_state(s, preserve, limit), preserve, limit, n) == state_after(
            s,
            preserve,
            limit,
            n + 1,
        ),
    decreases n,
{
    reveal_with_fuel(state_after, 2);
    if n > 0 {
        lemma_state_shifted(s, preserve, limit, (n - 1) as nat);
    }
}

/// The rounds end with one that changes nothing.
proof fn lemma_rounds_end(s: ThreadState, preserve: bool, limit: nat, fuel: nat, n: nat) -> (t:
    ThreadState)
    requires
        n < fuel,
        !simplify_cfg::round(state_after(s, preserve, limit, n), preserve, limit).1,
    ensures
        !simplify_cfg::round(t, preserve, limit).1,
        simplify_cfg::rounds(s, preserve, limit, fuel) == t.f,
    decreases fuel,
{
    reveal(next_state);
    let (next, changed) = simplify_cfg::round(s, preserve, limit);
    if !changed {
        lemma_round_unchanged(s, preserve, limit);
        s
    } else {
        if n > 0 {
            lemma_state_shifted(s, preserve, limit, (n - 1) as nat);
        }
        lemma_rounds_end(next, preserve, limit, (fuel - 1) as nat, (n - 1) as nat)
    }
}

/// Where the rounds end because one changes nothing, the result has nothing
/// left to simplify: every block can be reached, no branch has a known outcome
/// or twice the same target, and no phi has a single value.
pub proof fn nothing_is_left_to_simplify(f: FuncView, preserve: bool)
    requires
        settles(f, preserve),
        verify::valid(
            simplify_cfg::rounds(first_state(f), preserve, f.blocks.len(), u64::MAX as nat),
        ),
    ensures
        ({
            let g = simplify_cfg::simplified(f, preserve);
            &&& forall|b: BlockId| #[trigger] g.has_block(b) ==> cfg::reachable(g, b)
            &&& forall|b: BlockId|
                g.has_block(b) ==> branches::straight(g, #[trigger] g.terminator(b))
                    == g.terminator(b)
            &&& forall|b: BlockId, i: int|
                g.has_inst(b, i) ==> branches::trivial_phi(#[trigger] g.inst(b, i)) is None
        }),
{
    let limit = f.blocks.len();
    let n = choose|n: nat|
        n < u64::MAX && !simplify_cfg::round(
            #[trigger] state_after(first_state(f), preserve, limit, n),
            preserve,
            limit,
        ).1;
    let t = lemma_rounds_end(first_state(f), preserve, limit, u64::MAX as nat, n);
    lemma_round_unchanged(t, preserve, limit);
    let g = simplify_cfg::simplified(f, preserve);
    assert(g == t.f);
    assert forall|b: BlockId| #[trigger] g.has_block(b) implies cfg::reachable(g, b) by {
        let marks = dead_blocks::live(g);
        assert(dead_blocks::all_marked(marks));
        assert(marks[b.0 as int]);
    }
    assert forall|b: BlockId| g.has_block(b) implies branches::straight(
        g,
        #[trigger] g.terminator(b),
    ) == g.terminator(b) by {
        assert(g.terminator(b) == g.blocks[b.0 as int].terminator);
    }
    assert forall|b: BlockId, i: int| g.has_inst(b, i) implies branches::trivial_phi(
        #[trigger] g.inst(b, i),
    ) is None by {
        assert(g.inst(b, i) == g.blocks[b.0 as int].insts[i]);
    }
}

/// Where the rounds end because one changes nothing, simplifying again changes
/// nothing. Edges that were tried for jump threading once may be tried again, so
/// unless preheaders are preserved none of them may be left to thread.
pub proof fn simplification_is_idempotent(f: FuncView, preserve: bool)
    requires
        settles(f, preserve),
        !preserve ==> ({
            let g = simplify_cfg::simplified(f, preserve);
            !jump_thread::thread_step(first_state(g), g.blocks.len()).1
        }),
    ensures
        simplify_cfg::simplified(simplify_cfg::simplified(f, preserve), preserve)
            == simplify_cfg::simplified(f, preserve),
{
    let limit = f.blocks.len();
    let h = simplify_cfg::rounds(first_state(f), preserve, limit, u64::MAX as nat);
    if verify::valid(h) {
        let n = choose|n: nat|
            n < u64::MAX && !simplify_cfg::round(
                #[trigger] state_after(first_state(f), preserve, limit, n),
                preserve,
                limit,
            ).1;
        let t = lemma_rounds_end(first_state(f), preserve, limit, u64::MAX as nat, n);
        lemma_round_unchanged(t, preserve, limit);
        let g = simplify_cfg::simplified(f, preserve);
        let s = first_state(g);
        if !preserve {
            lemma_threads_unchanged(
                s,
                known_bits::all_facts(g),
                g.blocks.len(),
                0,
            );
        }
        assert(simplify_cfg::round(s, preserve, g.blocks.len()).0.f == g);
        assert(!simplify_cfg::round(s, preserve, g.blocks.len()).1);
        assert(simplify_cfg::rounds(s, preserve, g.blocks.len(), u64::MAX as nat) == g);
    }
}

} // verus!
