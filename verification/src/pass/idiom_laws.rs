//! Loops of a header and a body that count from zero up to a bound.
use vstd::prelude::*;

use crate::cfg;
use crate::ir::{BlockId, FuncView, InstView, Terminator, ValueId};
use crate::loops;
use crate::loops::LoopView;
use crate::pass::loop_idiom;
use crate::pass::loop_idiom::Frame;
use crate::pass::simplify_cfg::select_laws::entered_once;
use crate::pass::simplify_cfg::threading_laws;
use crate::query;
use crate::semantics;
use crate::semantics::Meaning;
use crate::ssa;
use crate::ssa::one;

verus! {

// ---------------------------------------------------------------------------
// The blocks of the loop
// ---------------------------------------------------------------------------

/// How control passes through the loop.
pub open spec fn is_closed_loop(f: FuncView, fr: Frame) -> bool {
    &&& f.has_block(fr.header)
    &&& f.has_block(fr.body)
    &&& f.has_block(fr.exit)
    &&& fr.header != fr.body
    &&& fr.exit != fr.header
    &&& fr.exit != fr.body
    &&& fr.preheader != fr.header
    &&& fr.preheader != fr.body
    &&& f.entry != fr.header
    &&& f.entry != fr.body
    &&& f.terminator(fr.header) == Some(
        Terminator::Branch {
            cond: fr.condition,
            then_target: fr.body,
            else_target: fr.exit,
        },
    )
    &&& f.terminator(fr.body) == Some(Terminator::Jump(fr.header))
    &&& forall|q: BlockId|
        f.has_block(q) && #[trigger] cfg::edge(f, q, fr.header) ==> q == fr.preheader || q
            == fr.body
    &&& forall|q: BlockId| f.has_block(q) && #[trigger] cfg::edge(f, q, fr.body) ==> q == fr.header
}

/// The loop consists of the header and the body.
proof fn lemma_members(f: FuncView, l: LoopView, fr: Frame)
    requires
        f.wf(),
        f.blocks.len() <= usize::MAX,
        f.has_block(l.header),
        l == loops::loop_at(f, l.header),
        loop_idiom::frame_of(f, l) == Some(fr),
    ensures
        f.has_block(fr.body),
        forall|b: BlockId| f.has_block(b) ==> (#[trigger] l.has(b) <==> b == fr.header || b
            == fr.body),
        forall|q: BlockId|
            f.has_block(q) && #[trigger] cfg::edge(f, q, fr.body) ==> q == fr.header,
{
    let h = l.header;
    loops::lemma_loop_within(f, h);
    loops::lemma_filtered(cfg::preds(f, h), loops::dominated_by(f, h));
    let body = fr.body;
    assert(l.latches.len() == 1 && l.latches[0] == body);
    let n = f.blocks.len() as int;
    cfg::lemma_preds_below(f, h, n, body);
    assert(f.has_block(body));
    let graph = cfg::pred_lists(f);
    assert(cfg::walk(graph, seq![body], body, body, Some(h)));
    assert(loops::latches(f, h).contains(body));
    assert(cfg::reaches(graph, body, body, Some(h)));
    assert(loops::in_loop(f, h, body));
    assert(l.has(h) && l.has(body));
    let list = l.blocks;
    let i = choose|i: int| 0 <= i < list.len() && list[i] == h;
    let j = choose|j: int| 0 <= j < list.len() && list[j] == body;
    assert forall|b: BlockId| f.has_block(b) implies (#[trigger] l.has(b) <==> b == fr.header || b
        == fr.body) by {
        if l.has(b) {
            let k = choose|k: int| 0 <= k < list.len() && list[k] == b;
            assert(k == i || k == j);
        }
    }
    assert forall|q: BlockId| f.has_block(q) && #[trigger] cfg::edge(f, q, body) implies q
        == fr.header by {
        if q != h {
            cfg::lemma_preds_below(f, body, n, q);
            let path = seq![body, q];
            assert(graph[body.0 as int] == cfg::preds(f, body));
            assert(path.last() == q);
            assert(cfg::walk(graph, path, body, q, Some(h)));
            assert(cfg::reaches(graph, body, q, Some(h)));
            assert(loops::in_loop(f, h, q));
            assert(l.has(q));
            threading_laws::lemma_succ(f.terminator(body), body);
        }
    }
}

pub proof fn lemma_closed_loop(f: FuncView, l: LoopView, fr: Frame)
    requires
        f.wf(),
        f.blocks.len() <= usize::MAX,
        entered_once(f),
        f.has_block(l.header),
        l == loops::loop_at(f, l.header),
        loop_idiom::frame_of(f, l) == Some(fr),
    ensures
        is_closed_loop(f, fr),
        forall|b: BlockId| f.has_block(b) ==> (#[trigger] l.has(b) <==> b == fr.header || b
            == fr.body),
{
    let h = l.header;
    let n = f.blocks.len() as int;
    lemma_members(f, l, fr);
    loops::lemma_loop_within(f, h);
    assert(l.exit_edges == seq![(h, fr.exit)]);
    loops::lemma_filtered(cfg::preds(f, h), loops::outside_of(f, h));
    loops::lemma_filtered(cfg::preds(f, h), loops::dominated_by(f, h));
    let entering = loops::entering(f, h);
    assert(entering.len() == 1 && entering[0] == fr.preheader);
    cfg::lemma_preds_below(f, h, n, fr.preheader);
    assert(f.has_block(fr.preheader));
    assert(!l.has(fr.preheader));
    assert forall|q: BlockId| f.has_block(q) && #[trigger] cfg::edge(f, q, h) implies q
        == fr.preheader || q == fr.body by {
        cfg::lemma_preds_below(f, h, n, q);
        if !l.has(q) {
            assert(loops::outside_of(f, h)(q));
            assert(entering.contains(q));
        } else {
            threading_laws::lemma_succ(f.terminator(h), h);
            lemma_exit(f, l, fr);
        }
    }
    lemma_exit(f, l, fr);
    assert(cfg::edge(f, fr.preheader, h));
    assert(f.entry != h);
    threading_laws::lemma_succ(f.terminator(h), fr.body);
    assert(cfg::edge(f, h, fr.body));
}

/// Nothing of the loop dominates the preheader.
pub proof fn lemma_preheader_ahead(f: FuncView, l: LoopView, fr: Frame)
    requires
        f.wf(),
        f.blocks.len() <= usize::MAX,
        entered_once(f),
        f.has_block(l.header),
        l == loops::loop_at(f, l.header),
        loop_idiom::frame_of(f, l) == Some(fr),
    ensures
        !cfg::dominates(f, fr.header, fr.preheader),
        !cfg::dominates(f, fr.body, fr.preheader),
        cfg::edge(f, fr.preheader, fr.header),
        f.has_block(fr.preheader),
{
    let h = l.header;
    let n = f.blocks.len() as int;
    lemma_closed_loop(f, l, fr);
    loops::lemma_filtered(cfg::preds(f, h), loops::outside_of(f, h));
    loops::lemma_filtered(cfg::preds(f, h), loops::dominated_by(f, h));
    let entering = loops::entering(f, h);
    assert(entering.len() == 1 && entering[0] == fr.preheader);
    cfg::lemma_preds_below(f, h, n, fr.preheader);
    assert(l.latches.len() == 1 && l.latches[0] == fr.body);
    if cfg::dominates(f, h, fr.preheader) {
        assert(loops::dominated_by(f, h)(fr.preheader));
        assert(l.latches.contains(fr.preheader));
    }
    assert(loops::dominated_by(f, h)(l.latches[0]));
    if cfg::dominates(f, fr.body, fr.preheader) {
        ssa::dominance_is_transitive(f, h, fr.body, fr.preheader);
    }
}

/// The exit lies outside of the loop.
proof fn lemma_exit(f: FuncView, l: LoopView, fr: Frame)
    requires
        f.wf(),
        f.blocks.len() <= usize::MAX,
        f.has_block(l.header),
        l == loops::loop_at(f, l.header),
        loop_idiom::frame_of(f, l) == Some(fr),
    ensures
        f.has_block(fr.exit),
        !l.has(fr.exit),
{
    let h = l.header;
    loops::lemma_loop_within(f, h);
    lemma_exits_outside(f, h, loops::loop_blocks(f, h).len() as int);
    assert(l.exit_edges[0] == (h, fr.exit));
    assert(loops::outside_of(f, h)(fr.exit));
    query::lemma_terminator_wf(f, h);
}

pub proof fn lemma_exits_outside(f: FuncView, header: BlockId, k: int)
    requires
        0 <= k <= loops::loop_blocks(f, header).len(),
    ensures
        forall|i: int|
            0 <= i < loops::exits_upto(f, header, k).len() ==> loops::outside_of(f, header)(
                (#[trigger] loops::exits_upto(f, header, k)[i]).1,
            ),
    decreases k,
{
    if k > 0 {
        lemma_exits_outside(f, header, k - 1);
        let b = loops::loop_blocks(f, header)[k - 1];
        loops::lemma_filtered(cfg::succ_list(f.terminator(b)), loops::outside_of(f, header));
        let before = loops::exits_upto(f, header, k - 1);
        let here = cfg::succ_list(f.terminator(b)).filter(loops::outside_of(f, header));
        let all = loops::exits_upto(f, header, k);
        assert forall|i: int| 0 <= i < all.len() implies loops::outside_of(f, header)((
        #[trigger] all[i]).1) by {
            if i < before.len() {
                assert(all[i] == before[i]);
            } else {
                assert(all[i].1 == here[i - before.len()]);
            }
        }
    }
}

// ---------------------------------------------------------------------------
// Few instructions among empty slots
// ---------------------------------------------------------------------------

/// Nothing is done from place `k` on, but for phis.
pub proof fn lemma_idle<D, M>(
    m: Meaning<D, M>,
    insts: Seq<InstView>,
    k: int,
    n: int,
    env: Map<ValueId, D>,
    memory: M,
)
    requires
        0 <= k <= n <= insts.len(),
        forall|i: int|
            k <= i < n ==> (#[trigger] insts[i]).kind is Nop || insts[i].kind is Phi,
    ensures
        semantics::executed(m, insts, n, env, memory) == semantics::executed(
            m,
            insts,
            k,
            env,
            memory,
        ),
    decreases n,
{
    if n > k {
        lemma_idle(m, insts, k, n - 1, env, memory);
        assert(insts[n - 1].kind is Nop || insts[n - 1].kind is Phi);
    }
}

/// One instruction is done behind idle ones.
pub proof fn lemma_next_one<D, M>(
    m: Meaning<D, M>,
    insts: Seq<InstView>,
    k: int,
    i: int,
    env: Map<ValueId, D>,
    memory: M,
)
    requires
        0 <= k <= i < insts.len(),
        forall|j: int|
            k <= j < i ==> (#[trigger] insts[j]).kind is Nop || insts[j].kind is Phi,
    ensures
        semantics::executed(m, insts, i + 1, env, memory) == one(
            m,
            insts[i],
            semantics::executed(m, insts, k, env, memory).0,
            semantics::executed(m, insts, k, env, memory).1,
        ),
{
    lemma_idle(m, insts, k, i, env, memory);
}

/// Three instructions among idle ones are done in turn.
pub proof fn lemma_three<D, M>(
    m: Meaning<D, M>,
    insts: Seq<InstView>,
    a: int,
    b: int,
    c: int,
    env: Map<ValueId, D>,
    memory: M,
)
    requires
        0 <= a < b < c < insts.len(),
        forall|j: int|
            0 <= j < insts.len() && j != a && j != b && j != c ==> (#[trigger] insts[j]).kind is Nop
                || insts[j].kind is Phi,
    ensures
        ({
            let (e1, x1) = one(m, insts[a], env, memory);
            let (e2, x2) = one(m, insts[b], e1, x1);
            semantics::executed(m, insts, insts.len() as int, env, memory) == one(
                m,
                insts[c],
                e2,
                x2,
            )
        }),
{
    assert(semantics::executed(m, insts, 0, env, memory) == (env, memory));
    lemma_next_one(m, insts, 0, a, env, memory);
    lemma_next_one(m, insts, a + 1, b, env, memory);
    lemma_next_one(m, insts, b + 1, c, env, memory);
    lemma_idle(m, insts, c + 1, insts.len() as int, env, memory);
}

/// The only instruction among idle ones is done.
pub proof fn lemma_single<D, M>(
    m: Meaning<D, M>,
    insts: Seq<InstView>,
    a: int,
    env: Map<ValueId, D>,
    memory: M,
)
    requires
        0 <= a < insts.len(),
        forall|j: int|
            0 <= j < insts.len() && j != a ==> (#[trigger] insts[j]).kind is Nop || insts[j].kind
                is Phi,
    ensures
        semantics::executed(m, insts, insts.len() as int, env, memory) == one(
            m,
            insts[a],
            env,
            memory,
        ),
{
    assert(semantics::executed(m, insts, 0, env, memory) == (env, memory));
    lemma_next_one(m, insts, 0, a, env, memory);
    lemma_idle(m, insts, a + 1, insts.len() as int, env, memory);
}

/// A list with as many operations as the given places has no others.
pub proof fn lemma_others_idle(insts: Seq<InstView>, places: Seq<int>, i: int)
    requires
        insts.len() <= usize::MAX,
        query::active_below(insts, insts.len() as int).len() == places.len(),
        places.no_duplicates(),
        forall|k: int|
            0 <= k < places.len() ==> 0 <= #[trigger] places[k] < insts.len()
                && !(insts[places[k]].kind is Nop),
        0 <= i < insts.len(),
        !places.contains(i),
    ensures
        insts[i].kind is Nop,
{
    if !(insts[i].kind is Nop) {
        let list = query::active_below(insts, insts.len() as int);
        let all = places.push(i);
        let named = all.map_values(|p: int| p as usize);
        assert(named.no_duplicates()) by {
            assert forall|x: int, y: int|
                0 <= x < named.len() && 0 <= y < named.len() && x != y implies named[x]
                != named[y] by {
                if x < places.len() {
                    assert(0 <= places[x] < insts.len());
                }
                if y < places.len() {
                    assert(0 <= places[y] < insts.len());
                }
                if x == places.len() {
                    assert(places.contains(places[y]));
                }
                if y == places.len() {
                    assert(places.contains(places[x]));
                }
            }
        }
        named.unique_seq_to_set();
        assert(named.to_set().subset_of(list.to_set())) by {
            assert forall|u: usize| named.to_set().contains(u) implies list.to_set().contains(u) by {
                let k = choose|k: int| 0 <= k < named.len() && named[k] == u;
                if k < places.len() {
                    assert(!(insts[places[k]].kind is Nop));
                    threading_laws::lemma_active_complete(insts, insts.len() as int, places[k]);
                } else {
                    threading_laws::lemma_active_complete(insts, insts.len() as int, i);
                }
            }
        }
        list.lemma_cardinality_of_set();
        vstd::set_lib::lemma_len_subset(named.to_set(), list.to_set());
    }
}

} // verus!
