//! Replacing phis that have a single value keeps what a function computes.
use vstd::prelude::*;

use crate::cfg;
use crate::edit;
use crate::ir::{BlockId, FuncView, ValueId, ValueKindView};
use crate::pass::simplify_cfg::branches;
use crate::pass::simplify_cfg::select_laws::entered_once;
use crate::pass::simplify_cfg::threading_laws::fits;
use crate::query;
use crate::rewriting;
use crate::semantics;
use crate::semantics::{Meaning, State};
use crate::ssa;
use crate::util;
use crate::verify;

verus! {

/// Some trivial phi of the function defines `p` and stands for `w`.
pub open spec fn stands_for(f: FuncView, p: ValueId, w: ValueId) -> bool {
    exists|b: BlockId, i: int|
        f.has_inst(b, i) && branches::trivial_phi(#[trigger] f.inst(b, i)) == Some((p, w))
}

proof fn lemma_insts_trivial(
    f: FuncView,
    b: BlockId,
    n: int,
    base: Map<ValueId, ValueId>,
    v: ValueId,
)
    requires
        f.has_block(b),
        0 <= n <= f.block(b).insts.len(),
    ensures
        ({
            let map = branches::insts_trivial(f.block(b).insts, n, base);
            map.contains_key(v) ==> stands_for(f, v, map[v]) || (base.contains_key(v) && base[v]
                == map[v])
        }),
    decreases n,
{
    if n > 0 {
        lemma_insts_trivial(f, b, n - 1, base, v);
        assert(f.has_inst(b, n - 1));
        assert(f.inst(b, n - 1) == f.block(b).insts[n - 1]);
    }
}

proof fn lemma_blocks_trivial(f: FuncView, n: int, v: ValueId)
    requires
        fits(f),
        0 <= n <= f.blocks.len(),
    ensures
        ({
            let map = branches::blocks_trivial(f, n);
            map.contains_key(v) ==> stands_for(f, v, map[v])
        }),
    decreases n,
{
    if n > 0 {
        lemma_blocks_trivial(f, n - 1, v);
        let b = BlockId((n - 1) as usize);
        assert(f.block(b) == f.blocks[n - 1]);
        lemma_insts_trivial(
            f,
            b,
            f.block(b).insts.len() as int,
            branches::blocks_trivial(f, n - 1),
            v,
        );
    }
}

/// The value is there wherever control is in block `b`.
pub open spec fn is_there(f: FuncView, v: ValueId, b: BlockId) -> bool {
    &&& verify::defined(f, v)
    &&& f.value(v).kind matches ValueKindView::Inst(owner, _) ==> cfg::dominates(f, owner, b)
}

proof fn lemma_resolved_same<D, M>(
    f: FuncView,
    m: Meaning<D, M>,
    map: Map<ValueId, ValueId>,
    fuel: nat,
    b: BlockId,
    i: int,
    env: Map<ValueId, D>,
    v: ValueId,
)
    requires
        verify::valid(f),
        fits(f),
        entered_once(f),
        forall|p: ValueId| #[trigger] map.contains_key(p) ==> stands_for(f, p, map[p]),
        cfg::reachable(f, b),
        ssa::knows(f, m, b, i, env),
        f.has_value(v),
        is_there(f, v, b),
    ensures
        env[v] == env[util::resolve(map, v, fuel)],
        f.has_value(util::resolve(map, v, fuel)),
    decreases fuel,
{
    if fuel > 0 && map.contains_key(v) && map[v] != v {
        let w = map[v];
        assert(stands_for(f, v, w));
        let (d, j) = choose|d: BlockId, j: int|
            f.has_inst(d, j) && branches::trivial_phi(#[trigger] f.inst(d, j)) == Some((v, w));
        let inst = f.inst(d, j);
        let incomings = inst.kind->incomings;
        assert(f.has_block(d));
        assert(verify::block_valid(f, d));
        assert(verify::inst_valid(f, d, j));
        query::lemma_inst_wf(f, d, j);
        assert(ssa::single_source(inst) == Some((v, w)));
        assert(f.value(v).kind == ValueKindView::Inst(d, j as usize));
        assert(cfg::dominates(f, d, b));
        assert(env[v] == env[w]) by {
            reveal(ssa::knows);
        }
        assert(verify::available(
            f,
            incomings[0].1,
            incomings[0].0,
            verify::block_end(f, incomings[0].0),
        ));
        assert(is_there(f, w, b)) by {
            if let ValueKindView::Inst(owner, at) = f.value(w).kind {
                ssa::lemma_dominator_reachable(f, d, b);
                ssa::lemma_source_ahead(f, d, j, owner, at as int, w);
                ssa::dominance_is_transitive(f, owner, d, b);
            }
        }
        lemma_resolved_same(f, m, map, (fuel - 1) as nat, b, i, env, w);
    }
}

/// Replacing the phis that have a single value by that value keeps what every
/// call returns. Nothing may lead to the entry block.
pub proof fn trivial_phis_keep_the_meaning<D, M>(
    f: FuncView,
    m: Meaning<D, M>,
    args: Map<ValueId, D>,
    memory: M,
    out: State<D, M>,
)
    requires
        verify::valid(f),
        verify::valid(branches::trivial_step(f).0),
        fits(f),
        entered_once(f),
        m.computes_apart_from_memory(),
    ensures
        semantics::yields(branches::trivial_step(f).0, m, args, memory, out)
            == semantics::yields(f, m, args, memory, out),
{
    let g = branches::trivial_step(f).0;
    let n = f.blocks.len() as int;
    let map = branches::blocks_trivial(f, n);
    let rho = util::resolver(map, f.values.len());
    let unread = Set::new(
        |v: ValueId| !f.has_value(v) || exists|w: ValueId| #[trigger] stands_for(f, v, w),
    );
    assert forall|p: ValueId| #[trigger] map.contains_key(p) implies stands_for(f, p, map[p]) by {
        lemma_blocks_trivial(f, n, p);
    }
    assert forall|b: BlockId, i: int| f.has_inst(b, i) implies #[trigger] g.inst(b, i)
        == util::map_inst(f.inst(b, i), rho) || (g.inst(b, i) == edit::nop()
        && rewriting::is_removable(f.inst(b, i), unread)) by {
        let old = f.inst(b, i);
        if let Some((p, w)) = branches::trivial_phi(old) {
            assert(stands_for(f, p, w));
            assert(g.inst(b, i) == edit::nop());
        }
    }
    assert(rewriting::renamed(f, g, rho, unread));
    assert forall|b: BlockId, i: int, env: Map<ValueId, D>, data: Map<ValueId, D>, v: ValueId|
        f.has_block(b) && 0 <= i <= f.block(b).insts.len() implies #[trigger] rewriting::same_read(
        f,
        g,
        m,
        rho,
        unread,
        b,
        i,
        env,
        data,
        v,
    ) by {
        if rewriting::side_by_side(f, g, m, unread, b, i, env, data) && f.has_value(v)
            && g.has_value(rho(v)) && verify::available(f, v, b, i) && verify::available(
            g,
            rho(v),
            b,
            i,
        ) {
            ssa::dominance_is_reflexive(f, b);
            assert(is_there(f, v, b));
            lemma_resolved_same(f, m, map, f.values.len(), b, i, env, v);
            let r = rho(v);
            assert(!unread.contains(r)) by {
                if unread.contains(r) {
                    let w = choose|w: ValueId| #[trigger] stands_for(f, r, w);
                    let (d, j) = choose|d: BlockId, j: int|
                        f.has_inst(d, j) && branches::trivial_phi(#[trigger] f.inst(d, j)) == Some(
                            (r, w),
                        );
                    assert(f.has_block(d));
                    assert(verify::block_valid(f, d));
                    assert(verify::inst_valid(f, d, j));
                    assert(g.inst(d, j) == edit::nop());
                    assert(g.value(r) == f.value(r));
                    assert(verify::defined(g, r));
                }
            }
            assert(env[r] == data[r]);
        }
    }
    rewriting::renaming_keeps_the_meaning(f, g, m, rho, unread, args, memory, out);
}

} // verus!
