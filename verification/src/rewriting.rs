//! Functions whose instructions stand for those of another one, place by place.
//!
//! If every instruction, terminator and phi of the new function has the effect
//! of the old one at its place, given what is known there, then the two
//! functions compute the same.
use vstd::prelude::*;

use crate::cfg;
use crate::edit;
use crate::ir::{BlockId, FuncView, InstView, KindView, Terminator, ValueId};
use crate::pass::simplify_cfg::meaning_laws;
use crate::pass::simplify_cfg::meaning_laws::{constants_kept, results_are_computed};
use crate::pass::simplify_cfg::select_laws;
use crate::pass::simplify_cfg::select_laws::entered_once;
use crate::pass::simplify_cfg::threading_laws;
use crate::pass::simplify_cfg::threading_laws::{fits, next_block};
use crate::query;
use crate::semantics;
use crate::semantics::{Meaning, State};
use crate::ssa;
use crate::ssa::{assigned, knows, one};
use crate::util;
use crate::verify;

verus! {

/// The two runs are at position `i` of block `b`, with the same data but for the
/// values that the new function does not read.
pub open spec fn side_by_side<D, M>(
    f: FuncView,
    g: FuncView,
    m: Meaning<D, M>,
    unread: Set<ValueId>,
    b: BlockId,
    i: int,
    env: Map<ValueId, D>,
    data: Map<ValueId, D>,
) -> bool {
    &&& cfg::reachable(f, b)
    &&& knows(f, m, b, i, env)
    &&& semantics::alike(env, data, unread)
    &&& constants_kept(g, m, data)
}

/// The new instruction has the effect of the old one.
pub open spec fn inst_stands<D, M>(
    f: FuncView,
    g: FuncView,
    m: Meaning<D, M>,
    unread: Set<ValueId>,
    b: BlockId,
    i: int,
    env: Map<ValueId, D>,
    data: Map<ValueId, D>,
    memory: M,
) -> bool {
    side_by_side(f, g, m, unread, b, i, env, data) ==> {
        let (x, mem) = one(m, f.inst(b, i), env, memory);
        let (y, other) = one(m, g.inst(b, i), data, memory);
        mem == other && semantics::alike(x, y, unread)
    }
}

/// What a terminator returns.
pub open spec fn returned<D>(t: Option<Terminator>, env: Map<ValueId, D>) -> Option<Option<D>> {
    match t {
        Some(Terminator::Return(Some(v))) => Some(Some(env[v])),
        Some(Terminator::Return(None)) => Some(None),
        _ => None,
    }
}

/// The new terminator has the effect of the old one.
pub open spec fn end_stands<D, M>(
    f: FuncView,
    g: FuncView,
    m: Meaning<D, M>,
    unread: Set<ValueId>,
    b: BlockId,
    env: Map<ValueId, D>,
    data: Map<ValueId, D>,
) -> bool {
    side_by_side(f, g, m, unread, b, f.block(b).insts.len() as int, env, data) ==> {
        &&& next_block(m, g.terminator(b), data) == next_block(m, f.terminator(b), env)
        &&& returned(g.terminator(b), data) == returned(f.terminator(b), env)
    }
}

/// The instructions assign the same datum to the same value, or only to values
/// that are not read.
pub open spec fn assigned_alike<D>(
    x: Option<(ValueId, ValueId)>,
    y: Option<(ValueId, ValueId)>,
    env: Map<ValueId, D>,
    data: Map<ValueId, D>,
    unread: Set<ValueId>,
) -> bool {
    match (x, y) {
        (Some((p, v)), Some((q, w))) => if unread.contains(p) {
            unread.contains(q)
        } else {
            p == q && env[v] == data[w]
        },
        (Some((p, _)), None) => unread.contains(p),
        (None, Some((q, _))) => unread.contains(q),
        (None, None) => true,
    }
}

/// The new phi has the effect of the old one where control passes from `b` to
/// `to`.
pub open spec fn phi_stands<D, M>(
    f: FuncView,
    g: FuncView,
    m: Meaning<D, M>,
    unread: Set<ValueId>,
    b: BlockId,
    to: BlockId,
    i: int,
    env: Map<ValueId, D>,
    data: Map<ValueId, D>,
) -> bool {
    side_by_side(f, g, m, unread, b, f.block(b).insts.len() as int, env, data) && cfg::edge(
        f,
        b,
        to,
    ) ==> assigned_alike(
        assigned(f.inst(to, i), b),
        assigned(g.inst(to, i), b),
        env,
        data,
        unread,
    )
}

/// The new function has the blocks of the old one, and all that is in them
/// stands for what was there.
pub open spec fn replaces<D, M>(
    f: FuncView,
    g: FuncView,
    m: Meaning<D, M>,
    unread: Set<ValueId>,
) -> bool {
    &&& g.entry == f.entry
    &&& g.blocks.len() == f.blocks.len()
    &&& results_are_computed(g)
    &&& forall|b: BlockId| #[trigger]
        f.has_block(b) ==> g.block(b).insts.len() == f.block(b).insts.len()
    &&& forall|args: Map<ValueId, D>|
        semantics::alike(
            #[trigger] semantics::initial(f, m, args),
            semantics::initial(g, m, args),
            unread,
        )
    &&& forall|b: BlockId, i: int, env: Map<ValueId, D>, data: Map<ValueId, D>, memory: M|
        f.has_inst(b, i) ==> #[trigger] inst_stands(f, g, m, unread, b, i, env, data, memory)
    &&& forall|b: BlockId, env: Map<ValueId, D>, data: Map<ValueId, D>|
        f.has_block(b) ==> #[trigger] end_stands(f, g, m, unread, b, env, data)
    &&& forall|b: BlockId, to: BlockId, i: int, env: Map<ValueId, D>, data: Map<ValueId, D>|
        f.has_block(b) && f.has_inst(to, i) ==> #[trigger] phi_stands(
            f,
            g,
            m,
            unread,
            b,
            to,
            i,
            env,
            data,
        )
}

/// The two runs are in the same block, side by side, or have ended alike.
#[verifier::opaque]
pub open spec fn corresponds<D, M>(
    f: FuncView,
    g: FuncView,
    m: Meaning<D, M>,
    unread: Set<ValueId>,
    s: State<D, M>,
    t: State<D, M>,
) -> bool {
    match (s, t) {
        (
            State::Running { block, env, memory },
            State::Running { block: other, env: data, memory: mem },
        ) => block == other && memory == mem && f.has_block(block) && side_by_side(
            f,
            g,
            m,
            unread,
            block,
            0,
            env,
            data,
        ),
        (State::Running { .. }, _) => false,
        (_, State::Running { .. }) => false,
        _ => s == t,
    }
}

pub open spec fn matching<D, M>(
    f: FuncView,
    g: FuncView,
    m: Meaning<D, M>,
    unread: Set<ValueId>,
) -> spec_fn(State<D, M>, State<D, M>) -> bool {
    |s: State<D, M>, t: State<D, M>| corresponds(f, g, m, unread, s, t)
}

proof fn lemma_block_in_step<D, M>(
    f: FuncView,
    g: FuncView,
    m: Meaning<D, M>,
    unread: Set<ValueId>,
    b: BlockId,
    n: int,
    env: Map<ValueId, D>,
    data: Map<ValueId, D>,
    memory: M,
)
    requires
        verify::valid(f),
        fits(f),
        entered_once(f),
        m.computes_apart_from_memory(),
        replaces(f, g, m, unread),
        f.has_block(b),
        0 <= n <= f.block(b).insts.len(),
        side_by_side(f, g, m, unread, b, 0, env, data),
    ensures
        ({
            let (x, mem) = semantics::executed(m, f.block(b).insts, n, env, memory);
            let (y, other) = semantics::executed(m, g.block(b).insts, n, data, memory);
            mem == other && side_by_side(f, g, m, unread, b, n, x, y)
        }),
    decreases n,
{
    if n > 0 {
        lemma_block_in_step(f, g, m, unread, b, n - 1, env, data, memory);
        let (x, mem) = semantics::executed(m, f.block(b).insts, n - 1, env, memory);
        let (y, _) = semantics::executed(m, g.block(b).insts, n - 1, data, memory);
        assert(f.has_inst(b, n - 1));
        assert(inst_stands(f, g, m, unread, b, n - 1, x, y, mem));
        ssa::lemma_known_behind(f, m, b, n - 1, x, mem);
        assert(g.block(b).insts.len() == f.block(b).insts.len());
        meaning_laws::lemma_execution_keeps_constants(g, m, b, n, data, memory);
    }
}

proof fn lemma_phis_in_step<D>(
    a: Seq<InstView>,
    b: Seq<InstView>,
    n: int,
    pred: BlockId,
    env: Map<ValueId, D>,
    data: Map<ValueId, D>,
    unread: Set<ValueId>,
)
    requires
        n <= a.len(),
        a.len() == b.len(),
        semantics::alike(env, data, unread),
        forall|i: int|
            0 <= i < a.len() ==> assigned_alike(
                assigned(#[trigger] a[i], pred),
                assigned(b[i], pred),
                env,
                data,
                unread,
            ),
    ensures
        semantics::alike(
            semantics::phis_assigned(a, n, pred, env),
            semantics::phis_assigned(b, n, pred, data),
            unread,
        ),
    decreases n,
{
    if n > 0 {
        lemma_phis_in_step(a, b, n - 1, pred, env, data, unread);
        assert(assigned_alike(
            assigned(a[n - 1], pred),
            assigned(b[n - 1], pred),
            env,
            data,
            unread,
        ));
    }
}

proof fn lemma_step_in_step<D, M>(
    f: FuncView,
    g: FuncView,
    m: Meaning<D, M>,
    unread: Set<ValueId>,
    s: State<D, M>,
    t: State<D, M>,
)
    requires
        verify::valid(f),
        fits(f),
        entered_once(f),
        m.computes_apart_from_memory(),
        replaces(f, g, m, unread),
        corresponds(f, g, m, unread, s, t),
    ensures
        corresponds(f, g, m, unread, semantics::step(f, m, s), semantics::step(g, m, t)),
{
    reveal(corresponds);
    match (s, t) {
        (
            State::Running { block, env, memory },
            State::Running { block: _, env: data, memory: _ },
        ) => {
            let n = f.block(block).insts.len() as int;
            assert(g.block(block).insts.len() == n);
            lemma_block_in_step(f, g, m, unread, block, n, env, data, memory);
            let (x, mem) = semantics::executed(m, f.block(block).insts, n, env, memory);
            let (y, _) = semantics::executed(m, g.block(block).insts, n, data, memory);
            assert(end_stands(f, g, m, unread, block, x, y));
            match next_block(m, f.terminator(block), x) {
                Some(to) => {
                    ssa::lemma_known_on_arrival(f, m, block, to, x);
                    threading_laws::lemma_succ(f.terminator(block), to);
                    assert(cfg::edge(f, block, to));
                    let p = f.block(to).insts;
                    let q = g.block(to).insts;
                    assert(f.has_block(to));
                    assert(p.len() == q.len());
                    assert forall|i: int| 0 <= i < p.len() implies assigned_alike(
                        assigned(#[trigger] p[i], block),
                        assigned(q[i], block),
                        x,
                        y,
                        unread,
                    ) by {
                        assert(f.has_inst(to, i));
                        assert(phi_stands(f, g, m, unread, block, to, i, x, y));
                    }
                    lemma_phis_in_step(p, q, p.len() as int, block, x, y, unread);
                    meaning_laws::lemma_assignment_keeps_constants(
                        g,
                        m,
                        to,
                        q.len() as int,
                        block,
                        y,
                    );
                },
                None => {
                    assert(verify::block_valid(f, block));
                },
            }
        },
        _ => {},
    }
}

/// A function whose instructions stand for those of another one computes the
/// same.
pub proof fn replacing_keeps_the_meaning<D, M>(
    f: FuncView,
    g: FuncView,
    m: Meaning<D, M>,
    unread: Set<ValueId>,
    args: Map<ValueId, D>,
    memory: M,
    out: State<D, M>,
)
    requires
        verify::valid(f),
        fits(f),
        entered_once(f),
        m.computes_apart_from_memory(),
        replaces(f, g, m, unread),
    ensures
        semantics::yields(g, m, args, memory, out) == semantics::yields(f, m, args, memory, out),
{
    let rel = matching(f, g, m, unread);
    assert forall|s: State<D, M>, t: State<D, M>| #[trigger] semantics::caught_up(
        f,
        g,
        m,
        rel,
        s,
        t,
    ) by {
        if rel(s, t) {
            lemma_step_in_step(f, g, m, unread, s, t);
            semantics::lemma_few_steps(f, m, s);
            assert(rel(semantics::steps(f, m, s, 1), semantics::step(g, m, t)));
        }
    }
    assert(semantics::end_alike(rel)) by {
        reveal(corresponds);
    }
    assert(rel(semantics::start(f, m, args, memory), semantics::start(g, m, args, memory))) by {
        reveal(corresponds);
        ssa::lemma_known_at_start(f, m, args);
        assert(semantics::alike(
            semantics::initial(f, m, args),
            semantics::initial(g, m, args),
            unread,
        ));
    }
    semantics::followers_compute_the_same(f, g, m, rel, args, memory, out);
}

// ---------------------------------------------------------------------------
// Values in place of values
// ---------------------------------------------------------------------------

/// The instruction defines a value that is no longer needed, and does nothing
/// else.
pub open spec fn is_removable(inst: InstView, unread: Set<ValueId>) -> bool {
    &&& inst.kind is Phi || semantics::is_plain(inst.kind)
    &&& inst.result matches Some(v) && unread.contains(v)
}

/// The new function reads `rho(v)` where the old one reads `v`, and lacks some
/// instructions whose results it does not read.
pub open spec fn renamed(
    f: FuncView,
    g: FuncView,
    rho: spec_fn(ValueId) -> ValueId,
    unread: Set<ValueId>,
) -> bool {
    &&& g.entry == f.entry
    &&& g.blocks.len() == f.blocks.len()
    &&& g.values.len() >= f.values.len()
    &&& forall|v: ValueId| f.has_value(v) ==> #[trigger] g.value(v) == f.value(v)
    &&& forall|v: ValueId| !f.has_value(v) ==> #[trigger] unread.contains(v)
    &&& forall|b: BlockId| #[trigger]
        f.has_block(b) ==> g.block(b).insts.len() == f.block(b).insts.len() && g.terminator(b)
            == util::map_terminator(f.terminator(b), rho)
    &&& forall|b: BlockId, i: int|
        f.has_inst(b, i) ==> #[trigger] g.inst(b, i) == util::map_inst(f.inst(b, i), rho) || (g.inst(
            b,
            i,
        ) == edit::nop() && is_removable(f.inst(b, i), unread))
}

/// Where both values can be read, the new one holds what the old one held.
pub open spec fn same_read<D, M>(
    f: FuncView,
    g: FuncView,
    m: Meaning<D, M>,
    rho: spec_fn(ValueId) -> ValueId,
    unread: Set<ValueId>,
    b: BlockId,
    i: int,
    env: Map<ValueId, D>,
    data: Map<ValueId, D>,
    v: ValueId,
) -> bool {
    side_by_side(f, g, m, unread, b, i, env, data) && f.has_value(v) && g.has_value(rho(v))
        && verify::available(f, v, b, i) && verify::available(g, rho(v), b, i) ==> env[v]
        == data[rho(v)]
}

pub open spec fn reads_the_same<D, M>(
    f: FuncView,
    g: FuncView,
    m: Meaning<D, M>,
    rho: spec_fn(ValueId) -> ValueId,
    unread: Set<ValueId>,
) -> bool {
    forall|b: BlockId, i: int, env: Map<ValueId, D>, data: Map<ValueId, D>, v: ValueId|
        f.has_block(b) && 0 <= i <= f.block(b).insts.len() ==> #[trigger] same_read(
            f,
            g,
            m,
            rho,
            unread,
            b,
            i,
            env,
            data,
            v,
        )
}

/// Operands in range.
proof fn lemma_operand_in_range(kind: KindView, nb: nat, nv: nat, k: int)
    requires
        edit::kind_wf(kind, nb, nv),
        !(kind is Phi),
        0 <= k < edit::operands(kind).len(),
    ensures
        edit::operands(kind)[k].0 < nv,
{
    if edit::operands(kind)[k].0 >= nv {
        verify::lemma_operand_out_of_range(kind, nb, nv, k);
    }
}

proof fn lemma_inst_renamed<D, M>(
    f: FuncView,
    g: FuncView,
    m: Meaning<D, M>,
    rho: spec_fn(ValueId) -> ValueId,
    unread: Set<ValueId>,
    b: BlockId,
    i: int,
    env: Map<ValueId, D>,
    data: Map<ValueId, D>,
    memory: M,
)
    requires
        verify::valid(f),
        verify::valid(g),
        m.computes_apart_from_memory(),
        renamed(f, g, rho, unread),
        reads_the_same(f, g, m, rho, unread),
        f.has_inst(b, i),
    ensures
        inst_stands(f, g, m, unread, b, i, env, data, memory),
{
    if side_by_side(f, g, m, unread, b, i, env, data) {
        let inst = f.inst(b, i);
        let kind = inst.kind;
        let new = g.inst(b, i);
        assert(f.has_block(b));
        assert(g.block(b).insts.len() == f.block(b).insts.len());
        if new == util::map_inst(inst, rho) {
            if !(kind is Phi) {
                select_laws::lemma_operands_mapped(kind, rho);
                let list = edit::operands(kind);
                let after = edit::operands(new.kind);
                assert(verify::block_valid(f, b) && verify::block_valid(g, b));
                assert(verify::inst_valid(f, b, i));
                assert(verify::inst_valid(g, b, i));
                query::lemma_inst_wf(f, b, i);
                query::lemma_inst_wf(g, b, i);
                assert forall|k: int| 0 <= k < list.len() implies env[#[trigger] list[k]]
                    == data[after[k]] by {
                    assert(verify::available(f, list[k], b, i));
                    assert(verify::available(g, after[k], b, i));
                    lemma_operand_in_range(kind, f.blocks.len(), f.values.len(), k);
                    lemma_operand_in_range(new.kind, g.blocks.len(), g.values.len(), k);
                    assert(same_read(f, g, m, rho, unread, b, i, env, data, list[k]));
                }
                assert(ssa::data_of(kind, env) =~= ssa::data_of(new.kind, data));
            }
        } else {
            ssa::lemma_shape_plain(kind);
        }
    }
}

proof fn lemma_phi_renamed<D, M>(
    f: FuncView,
    g: FuncView,
    m: Meaning<D, M>,
    rho: spec_fn(ValueId) -> ValueId,
    unread: Set<ValueId>,
    b: BlockId,
    to: BlockId,
    i: int,
    env: Map<ValueId, D>,
    data: Map<ValueId, D>,
)
    requires
        verify::valid(f),
        verify::valid(g),
        renamed(f, g, rho, unread),
        reads_the_same(f, g, m, rho, unread),
        f.has_block(b),
        f.has_inst(to, i),
    ensures
        phi_stands(f, g, m, unread, b, to, i, env, data),
{
    let n = f.block(b).insts.len() as int;
    if side_by_side(f, g, m, unread, b, n, env, data) && cfg::edge(f, b, to) {
        let inst = f.inst(to, i);
        let new = g.inst(to, i);
        assert(f.has_block(to));
        assert(g.block(to).insts.len() == f.block(to).insts.len());
        assert(g.block(b).insts.len() == n);
        if new == util::map_inst(inst, rho) {
            if let KindView::Phi { incomings } = inst.kind {
                let list = util::map_incomings(incomings, rho);
                select_laws::lemma_incoming_mapped(incomings, rho, b);
                threading_laws::lemma_incoming_entry(incomings, b);
                if let Some(v) = util::incoming_from(incomings, b) {
                    let k = choose|k: int|
                        0 <= k < incomings.len() && #[trigger] incomings[k] == (b, v);
                    assert(verify::block_valid(f, to) && verify::block_valid(g, to));
                    assert(verify::inst_valid(f, to, i));
                    assert(verify::inst_valid(g, to, i));
                    query::lemma_inst_wf(f, to, i);
                    query::lemma_inst_wf(g, to, i);
                    assert(list[k] == (b, rho(v)));
                    assert(verify::available(f, incomings[k].1, b, verify::block_end(f, b)));
                    assert(verify::available(g, list[k].1, b, verify::block_end(g, b)));
                    assert(same_read(f, g, m, rho, unread, b, n, env, data, v));
                }
            }
        }
    }
}

proof fn lemma_end_renamed<D, M>(
    f: FuncView,
    g: FuncView,
    m: Meaning<D, M>,
    rho: spec_fn(ValueId) -> ValueId,
    unread: Set<ValueId>,
    b: BlockId,
    env: Map<ValueId, D>,
    data: Map<ValueId, D>,
)
    requires
        verify::valid(f),
        verify::valid(g),
        renamed(f, g, rho, unread),
        reads_the_same(f, g, m, rho, unread),
        f.has_block(b),
    ensures
        end_stands(f, g, m, unread, b, env, data),
{
    let n = f.block(b).insts.len() as int;
    if side_by_side(f, g, m, unread, b, n, env, data) {
        assert(g.block(b).insts.len() == n);
        assert(verify::block_valid(f, b) && verify::block_valid(g, b));
        query::lemma_terminator_wf(f, b);
        query::lemma_terminator_wf(g, b);
        let x = edit::terminator_reads(f.terminator(b));
        let y = edit::terminator_reads(g.terminator(b));
        if x.len() > 0 {
            assert(y.len() > 0 && y[0] == rho(x[0]));
            assert(verify::available(f, x[0], b, verify::block_end(f, b)));
            assert(verify::available(g, y[0], b, verify::block_end(g, b)));
            assert(same_read(f, g, m, rho, unread, b, n, env, data, x[0]));
        }
    }
}

/// Reading values in place of others that hold the same, and leaving out what is
/// no longer read, keeps what every call returns.
pub proof fn renaming_keeps_the_meaning<D, M>(
    f: FuncView,
    g: FuncView,
    m: Meaning<D, M>,
    rho: spec_fn(ValueId) -> ValueId,
    unread: Set<ValueId>,
    args: Map<ValueId, D>,
    memory: M,
    out: State<D, M>,
)
    requires
        verify::valid(f),
        verify::valid(g),
        fits(f),
        entered_once(f),
        m.computes_apart_from_memory(),
        renamed(f, g, rho, unread),
        reads_the_same(f, g, m, rho, unread),
    ensures
        semantics::yields(g, m, args, memory, out) == semantics::yields(f, m, args, memory, out),
{
    meaning_laws::lemma_results_are_computed(g);
    assert forall|args: Map<ValueId, D>|
        semantics::alike(
            #[trigger] semantics::initial(f, m, args),
            semantics::initial(g, m, args),
            unread,
        ) by {
        let x = semantics::initial(f, m, args);
        let y = semantics::initial(g, m, args);
        assert forall|v: ValueId| !unread.contains(v) implies #[trigger] x[v] == y[v] by {
            assert(g.value(v) == f.value(v));
        }
    }
    assert forall|b: BlockId, i: int, env: Map<ValueId, D>, data: Map<ValueId, D>, memory: M|
        f.has_inst(b, i) implies #[trigger] inst_stands(
        f,
        g,
        m,
        unread,
        b,
        i,
        env,
        data,
        memory,
    ) by {
        lemma_inst_renamed(f, g, m, rho, unread, b, i, env, data, memory);
    }
    assert forall|b: BlockId, env: Map<ValueId, D>, data: Map<ValueId, D>|
        f.has_block(b) implies #[trigger] end_stands(f, g, m, unread, b, env, data) by {
        lemma_end_renamed(f, g, m, rho, unread, b, env, data);
    }
    assert forall|b: BlockId, to: BlockId, i: int, env: Map<ValueId, D>, data: Map<ValueId, D>|
        f.has_block(b) && f.has_inst(to, i) implies #[trigger] phi_stands(
        f,
        g,
        m,
        unread,
        b,
        to,
        i,
        env,
        data,
    ) by {
        lemma_phi_renamed(f, g, m, rho, unread, b, to, i, env, data);
    }
    replacing_keeps_the_meaning(f, g, m, unread, args, memory, out);
}

// ---------------------------------------------------------------------------
// Instructions in place of instructions
// ---------------------------------------------------------------------------

/// The values that the function does not have.
pub open spec fn missing(f: FuncView) -> Set<ValueId> {
    Set::new(|v: ValueId| !f.has_value(v))
}

/// The new function has the values of the old one, its blocks and its phis.
pub open spec fn same_frame(f: FuncView, g: FuncView) -> bool {
    &&& g.entry == f.entry
    &&& g.blocks.len() == f.blocks.len()
    &&& g.values.len() >= f.values.len()
    &&& forall|v: ValueId| f.has_value(v) ==> #[trigger] g.value(v) == f.value(v)
    &&& forall|b: BlockId| #[trigger]
        f.has_block(b) ==> g.block(b).insts.len() == f.block(b).insts.len()
    &&& forall|b: BlockId, i: int|
        f.has_inst(b, i) ==> (#[trigger] g.inst(b, i)).result == f.inst(b, i).result && ((f.inst(
            b,
            i,
        ).kind is Phi || g.inst(b, i).kind is Phi) ==> g.inst(b, i) == f.inst(b, i))
}

/// Every instruction is kept or stands for the old one, and so is every
/// terminator.
pub open spec fn edited<D, M>(f: FuncView, g: FuncView, m: Meaning<D, M>) -> bool {
    &&& forall|b: BlockId, i: int, env: Map<ValueId, D>, data: Map<ValueId, D>, memory: M|
        f.has_inst(b, i) && g.inst(b, i) != f.inst(b, i) ==> #[trigger] inst_stands(
            f,
            g,
            m,
            missing(f),
            b,
            i,
            env,
            data,
            memory,
        )
    &&& forall|b: BlockId, env: Map<ValueId, D>, data: Map<ValueId, D>|
        f.has_block(b) && g.terminator(b) != f.terminator(b) ==> #[trigger] end_stands(
            f,
            g,
            m,
            missing(f),
            b,
            env,
            data,
        )
}

/// Instructions in place of others that have the same effect keep what every
/// call returns.
pub proof fn editing_keeps_the_meaning<D, M>(
    f: FuncView,
    g: FuncView,
    m: Meaning<D, M>,
    args: Map<ValueId, D>,
    memory: M,
    out: State<D, M>,
)
    requires
        verify::valid(f),
        fits(f),
        entered_once(f),
        m.computes_apart_from_memory(),
        same_frame(f, g),
        edited(f, g, m),
    ensures
        semantics::yields(g, m, args, memory, out) == semantics::yields(f, m, args, memory, out),
{
    let unread = missing(f);
    meaning_laws::lemma_results_are_computed(f);
    assert(results_are_computed(g)) by {
        assert forall|b: BlockId, i: int|
            g.has_block(b) && 0 <= i < g.block(b).insts.len() implies ((
        #[trigger] g.block(b).insts[i]).result matches Some(v) ==> g.value(v).kind is Inst) by {
            assert(f.has_block(b));
            assert(f.has_inst(b, i));
            assert(g.inst(b, i).result == f.inst(b, i).result);
            query::lemma_inst_wf(f, b, i);
            assert(f.block(b).insts[i].result matches Some(v) ==> f.value(v).kind is Inst);
        }
    }
    assert forall|args: Map<ValueId, D>|
        semantics::alike(
            #[trigger] semantics::initial(f, m, args),
            semantics::initial(g, m, args),
            unread,
        ) by {
        let x = semantics::initial(f, m, args);
        let y = semantics::initial(g, m, args);
        assert forall|v: ValueId| !unread.contains(v) implies #[trigger] x[v] == y[v] by {
            assert(g.value(v) == f.value(v));
        }
    }
    assert forall|b: BlockId, i: int, env: Map<ValueId, D>, data: Map<ValueId, D>, memory: M|
        f.has_inst(b, i) implies #[trigger] inst_stands(
        f,
        g,
        m,
        unread,
        b,
        i,
        env,
        data,
        memory,
    ) by {
        let inst = f.inst(b, i);
        if g.inst(b, i) == inst && side_by_side(f, g, m, unread, b, i, env, data)
            && !(inst.kind is Phi) {
            query::lemma_inst_wf(f, b, i);
            let list = edit::operands(inst.kind);
            assert forall|k: int| 0 <= k < list.len() implies env[#[trigger] list[k]]
                == data[list[k]] by {
                lemma_operand_in_range(inst.kind, f.blocks.len(), f.values.len(), k);
                assert(!unread.contains(list[k]));
            }
            assert(ssa::data_of(inst.kind, env) =~= ssa::data_of(inst.kind, data));
        }
    }
    assert forall|b: BlockId, env: Map<ValueId, D>, data: Map<ValueId, D>|
        f.has_block(b) implies #[trigger] end_stands(f, g, m, unread, b, env, data) by {
        if g.terminator(b) == f.terminator(b) {
            query::lemma_terminator_wf(f, b);
            let reads = edit::terminator_reads(f.terminator(b));
            if reads.len() > 0 {
                assert(!unread.contains(reads[0]));
            }
        }
    }
    assert forall|b: BlockId, to: BlockId, i: int, env: Map<ValueId, D>, data: Map<ValueId, D>|
        f.has_block(b) && f.has_inst(to, i) implies #[trigger] phi_stands(
        f,
        g,
        m,
        unread,
        b,
        to,
        i,
        env,
        data,
    ) by {
        let inst = f.inst(to, i);
        assert(g.inst(to, i).result == inst.result);
        if let KindView::Phi { incomings } = inst.kind {
            query::lemma_inst_wf(f, to, i);
            threading_laws::lemma_incoming_entry(incomings, b);
            if let Some(v) = util::incoming_from(incomings, b) {
                let k = choose|k: int|
                    0 <= k < incomings.len() && #[trigger] incomings[k] == (b, v);
                assert(incomings[k].1.0 < f.values.len());
                assert(!unread.contains(v));
            }
        }
    }
    replacing_keeps_the_meaning(f, g, m, unread, args, memory, out);
}

} // verus!
