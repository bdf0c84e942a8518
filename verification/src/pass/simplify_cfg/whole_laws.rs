//! Simplification as a whole keeps what a function computes.
use vstd::prelude::*;

use crate::ir::{BlockId, Const, FuncView, Type, ValueId};
use crate::pass::simplify_cfg;
use crate::pass::simplify_cfg::boolean_stores;
use crate::pass::simplify_cfg::branches;
use crate::pass::simplify_cfg::convert_laws;
use crate::pass::simplify_cfg::dead_blocks;
use crate::pass::simplify_cfg::fixpoint_laws;
use crate::pass::simplify_cfg::fixpoint_laws::{first_state, state_after};
use crate::pass::simplify_cfg::if_convert;
use crate::pass::simplify_cfg::jump_thread;
use crate::pass::simplify_cfg::jump_thread::ThreadState;
use crate::pass::simplify_cfg::meaning_laws;
use crate::pass::simplify_cfg::select_laws::entered_once;
use crate::pass::simplify_cfg::store_laws;
use crate::pass::simplify_cfg::store_laws::stores_integers;
use crate::pass::simplify_cfg::structural;
use crate::pass::simplify_cfg::tail_laws;
use crate::pass::simplify_cfg::tail_merge;
use crate::pass::simplify_cfg::threading_laws;
use crate::pass::simplify_cfg::threading_laws::fits;
use crate::pass::simplify_cfg::trivial_laws;
use crate::query;
use crate::semantics;
use crate::semantics::{Meaning, State};
use crate::verify;

verus! {

/// The operations are what they are called.
pub open spec fn is_ordinary<D, M>(m: Meaning<D, M>) -> bool {
    &&& m.computes_apart_from_memory()
    &&& m.decides_constants()
    &&& m.has_booleans()
    &&& m.has_integers()
    &&& (m.constant)(Const::Zero(Type::I32)) == m.integer(0)
}

/// The function is valid and typed, is entered at its entry block only, and has
/// room for the values of the conversions.
#[verifier::opaque]
pub open spec fn is_sound(f: FuncView) -> bool {
    &&& verify::valid(f)
    &&& convert_laws::has_room(f, if_convert::MAX_IF_CONVERSIONS as int)
    &&& tail_laws::has_room(f)
    &&& convert_laws::well_typed(f)
    &&& entered_once(f)
    &&& !query::has_phi(f.block(f.entry).insts)
    &&& stores_integers(f)
}

/// The functions that the part of a round up to jump threading passes through.
pub open spec fn early_is_sound(f: FuncView) -> bool {
    let f1 = dead_blocks::remove_step(f).0;
    let f2 = branches::branch_step(f1).0;
    let f3 = if_convert::short_circuits(f2, Seq::empty(), 0, false).0;
    let f4 = if_convert::updates(f3, Seq::empty(), 0, false).0;
    let f5 = boolean_stores::store_step(f4).0;
    &&& is_sound(f)
    &&& is_sound(f1)
    &&& is_sound(f2)
    &&& is_sound(f3)
    &&& is_sound(f4)
    &&& is_sound(f5)
    &&& is_sound(branches::phi_branch_step(f5).0)
}

/// The functions that the part of a round behind jump threading passes through.
pub open spec fn late_is_sound(f: FuncView, preserve: bool) -> bool {
    let f1 = branches::trivial_step(f).0;
    let f2 = if preserve {
        f1
    } else {
        tail_merge::tail_step(f1).0
    };
    let f3 = simplify_cfg::forwarding_step(f2, preserve).0;
    &&& is_sound(f)
    &&& is_sound(f1)
    &&& is_sound(f2)
    &&& is_sound(f3)
    &&& is_sound(structural::merge_step(f3).0)
}

/// Every function that the round passes through is sound, and no edge is led
/// past a branch.
#[verifier::opaque]
pub open spec fn round_is_sound(s: ThreadState, preserve: bool, limit: nat) -> bool {
    let f = simplify_cfg::early_steps(s.f).0;
    &&& early_is_sound(s.f)
    &&& late_is_sound(f, preserve)
    &&& preserve || jump_thread::thread_step(ThreadState { f, ..s }, limit).0.f == f
}

proof fn lemma_fits(f: FuncView)
    requires
        is_sound(f),
    ensures
        fits(f),
        verify::valid(f),
        f.wf(),
        f.blocks.len() <= usize::MAX,
        f.values.len() + 4 <= usize::MAX,
{
    reveal(is_sound);
    assert forall|b: BlockId| #[trigger] f.has_block(b) implies f.block(b).insts.len()
        <= usize::MAX by {
    }
}

proof fn lemma_early<D, M>(
    f: FuncView,
    m: Meaning<D, M>,
    args: Map<ValueId, D>,
    memory: M,
    out: State<D, M>,
)
    requires
        early_is_sound(f),
        is_ordinary(m),
    ensures
        semantics::yields(simplify_cfg::early_steps(f).0, m, args, memory, out)
            == semantics::yields(f, m, args, memory, out),
{
    let f1 = dead_blocks::remove_step(f).0;
    let f2 = branches::branch_step(f1).0;
    let f3 = if_convert::short_circuits(f2, Seq::empty(), 0, false).0;
    let f4 = if_convert::updates(f3, Seq::empty(), 0, false).0;
    let f5 = boolean_stores::store_step(f4).0;
    let f6 = branches::phi_branch_step(f5).0;
    lemma_fits(f);
    lemma_fits(f1);
    lemma_fits(f2);
    lemma_fits(f3);
    lemma_fits(f4);
    lemma_fits(f5);
    meaning_laws::removal_keeps_the_meaning(f, m, args, memory, out);
    meaning_laws::straightening_keeps_the_meaning(f1, m, args, memory, out);
    assert(semantics::yields(f3, m, args, memory, out) == semantics::yields(
        f2,
        m,
        args,
        memory,
        out,
    )) by {
        reveal(is_sound);
        convert_laws::short_circuiting_keeps_the_meaning(f2, m, args, memory, out);
    }
    assert(semantics::yields(f4, m, args, memory, out) == semantics::yields(
        f3,
        m,
        args,
        memory,
        out,
    )) by {
        reveal(is_sound);
        convert_laws::updating_keeps_the_meaning(f3, m, args, memory, out);
    }
    assert(semantics::yields(f5, m, args, memory, out) == semantics::yields(
        f4,
        m,
        args,
        memory,
        out,
    )) by {
        reveal(is_sound);
        store_laws::storing_keeps_the_meaning(f4, m, args, memory, out);
    }
    assert(semantics::yields(f6, m, args, memory, out) == semantics::yields(
        f5,
        m,
        args,
        memory,
        out,
    )) by {
        reveal(is_sound);
        threading_laws::threading_keeps_the_meaning(f5, m, args, memory, out);
    }
}

proof fn lemma_late<D, M>(
    f: FuncView,
    preserve: bool,
    m: Meaning<D, M>,
    args: Map<ValueId, D>,
    memory: M,
    out: State<D, M>,
)
    requires
        late_is_sound(f, preserve),
        is_ordinary(m),
    ensures
        semantics::yields(simplify_cfg::late_steps(f, preserve).0, m, args, memory, out)
            == semantics::yields(f, m, args, memory, out),
{
    let f1 = branches::trivial_step(f).0;
    let f2 = if preserve {
        f1
    } else {
        tail_merge::tail_step(f1).0
    };
    let f3 = simplify_cfg::forwarding_step(f2, preserve).0;
    lemma_fits(f);
    lemma_fits(f1);
    lemma_fits(f2);
    lemma_fits(f3);
    assert(semantics::yields(f1, m, args, memory, out) == semantics::yields(
        f,
        m,
        args,
        memory,
        out,
    )) by {
        reveal(is_sound);
        trivial_laws::trivial_phis_keep_the_meaning(f, m, args, memory, out);
    }
    if !preserve {
        assert(semantics::yields(f2, m, args, memory, out) == semantics::yields(
            f1,
            m,
            args,
            memory,
            out,
        )) by {
            reveal(is_sound);
            tail_laws::tail_merging_keeps_the_meaning(f1, m, args, memory, out);
        }
        meaning_laws::forwarding_keeps_the_meaning(f2, Seq::empty(), m, args, memory, out);
    } else {
        meaning_laws::forwarding_keeps_the_meaning(
            f2,
            simplify_cfg::preheaders(f2),
            m,
            args,
            memory,
            out,
        );
    }
    meaning_laws::merging_keeps_the_meaning(f3, m, args, memory, out);
}

proof fn lemma_round<D, M>(
    s: ThreadState,
    preserve: bool,
    limit: nat,
    m: Meaning<D, M>,
    args: Map<ValueId, D>,
    memory: M,
    out: State<D, M>,
)
    requires
        round_is_sound(s, preserve, limit),
        is_ordinary(m),
    ensures
        semantics::yields(simplify_cfg::round(s, preserve, limit).0.f, m, args, memory, out)
            == semantics::yields(s.f, m, args, memory, out),
{
    reveal(round_is_sound);
    let f = simplify_cfg::early_steps(s.f).0;
    lemma_early(s.f, m, args, memory, out);
    lemma_late(f, preserve, m, args, memory, out);
}

/// Every round passes through sound functions only, and leads no edge past a
/// branch.
pub open spec fn stays_sound(s: ThreadState, preserve: bool, limit: nat) -> bool {
    forall|n: nat|
        round_is_sound(#[trigger] state_after(s, preserve, limit, n), preserve, limit)
}

proof fn lemma_rounds<D, M>(
    s: ThreadState,
    preserve: bool,
    limit: nat,
    fuel: nat,
    m: Meaning<D, M>,
    args: Map<ValueId, D>,
    memory: M,
    out: State<D, M>,
)
    requires
        stays_sound(s, preserve, limit),
        is_ordinary(m),
    ensures
        semantics::yields(
            simplify_cfg::rounds(s, preserve, limit, fuel),
            m,
            args,
            memory,
            out,
        ) == semantics::yields(s.f, m, args, memory, out),
    decreases fuel,
{
    if fuel > 0 {
        assert(round_is_sound(state_after(s, preserve, limit, 0), preserve, limit));
        lemma_round(s, preserve, limit, m, args, memory, out);
        let t = simplify_cfg::round(s, preserve, limit).0;
        assert(stays_sound(t, preserve, limit)) by {
            reveal(fixpoint_laws::next_state);
            assert forall|n: nat| round_is_sound(
                #[trigger] state_after(t, preserve, limit, n),
                preserve,
                limit,
            ) by {
                fixpoint_laws::lemma_state_shifted(s, preserve, limit, n);
                assert(round_is_sound(state_after(s, preserve, limit, n + 1), preserve, limit));
            }
        }
        lemma_rounds(t, preserve, limit, (fuel - 1) as nat, m, args, memory, out);
    }
}

/// Simplification keeps what every call returns, wherever the operations are
/// what they are called, as long as every function on the way is sound and no
/// edge is led past a branch.
pub proof fn simplification_keeps_the_meaning<D, M>(
    f: FuncView,
    preserve: bool,
    m: Meaning<D, M>,
    args: Map<ValueId, D>,
    memory: M,
    out: State<D, M>,
)
    requires
        stays_sound(first_state(f), preserve, f.blocks.len()),
        is_ordinary(m),
    ensures
        semantics::yields(simplify_cfg::simplified(f, preserve), m, args, memory, out)
            == semantics::yields(f, m, args, memory, out),
{
    lemma_rounds(
        first_state(f),
        preserve,
        f.blocks.len(),
        u64::MAX as nat,
        m,
        args,
        memory,
        out,
    );
}

} // verus!
