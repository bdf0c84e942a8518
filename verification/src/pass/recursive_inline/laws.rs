//! What holds of inlining as a whole.
use vstd::prelude::*;

use crate::cfg;
use crate::ir::{FuncView, FunctionId, ModuleView, ValueId};
use crate::pass::recursive_inline;
use crate::pass::recursive_inline::analyze;
use crate::pass::recursive_inline::analyze::{CallSite, CandidateView};
use crate::pass::recursive_inline::splice;
use crate::pass::recursive_inline::splice::CopyView;
use crate::pass::recursive_inline::Expansion;
use crate::pass::simplify_cfg::dead_blocks;
use crate::query;
use crate::verify;

verus! {

/// The two functions have the same name, signature and record of decisions.
pub open spec fn same_header(f: FuncView, g: FuncView) -> bool {
    &&& f.name == g.name
    &&& f.params == g.params
    &&& f.ret == g.ret
    &&& f.entry == g.entry
    &&& f.recursive_cfg_inline_decided == g.recursive_cfg_inline_decided
    &&& f.reduction_jammed == g.reduction_jammed
}

proof fn lemma_retargeted(
    f: FuncView,
    list: Seq<crate::ir::BlockId>,
    from: crate::ir::BlockId,
    to: crate::ir::BlockId,
    n: int,
)
    ensures
        same_header(f, splice::retargeted(f, list, from, to, n)),
    decreases n,
{
    if n > 0 {
        lemma_retargeted(f, list, from, to, n - 1);
    }
}

proof fn lemma_clones_added(f: FuncView, marks: Seq<bool>, n: int)
    ensures
        same_header(f, splice::clones_added(f, marks, n)),
    decreases n,
{
    if n > 0 {
        lemma_clones_added(f, marks, n - 1);
    }
}

proof fn lemma_imported(f: FuncView, g: FuncView, map: Map<ValueId, ValueId>, n: int)
    ensures
        same_header(f, splice::imported(f, g, map, n).0),
    decreases n,
{
    if n > 0 {
        lemma_imported(f, g, map, n - 1);
    }
}

proof fn lemma_block_allocated(
    f: FuncView,
    g: FuncView,
    b: crate::ir::BlockId,
    clone: crate::ir::BlockId,
    map: Map<ValueId, ValueId>,
    n: int,
)
    ensures
        same_header(f, splice::block_allocated(f, g, b, clone, map, n).0),
    decreases n,
{
    if n > 0 {
        lemma_block_allocated(f, g, b, clone, map, n - 1);
    }
}

proof fn lemma_allocated(f: FuncView, g: FuncView, c: CopyView, n: int)
    ensures
        same_header(f, splice::allocated(f, g, c, n).0),
    decreases n,
{
    if n > 0 {
        lemma_allocated(f, g, c, n - 1);
        let (f1, map1) = splice::allocated(f, g, c, n - 1);
        let b = crate::ir::BlockId((n - 1) as usize);
        lemma_block_allocated(f1, g, b, c.block(b), map1, query::active(g, b).len() as int);
    }
}

proof fn lemma_filled(
    f: FuncView,
    g: FuncView,
    c: CopyView,
    cont: crate::ir::BlockId,
    n: int,
)
    ensures
        same_header(f, splice::filled(f, g, c, cont, n)),
    decreases n,
{
    if n > 0 {
        lemma_filled(f, g, c, cont, n - 1);
    }
}

/// Inlining a call keeps the name and signature of the caller.
pub proof fn inlining_keeps_the_header(f: FuncView, g: FuncView, site: CallSite)
    ensures
        splice::inlined(f, g, site) matches Some(h) ==> same_header(f, h),
{
    if let Some(args) = splice::call_at(f, g, site) {
        let marks = dead_blocks::live(g);
        let n = g.blocks.len() as int;
        let cont = f.next_block();
        let list = cfg::succ_list(f.terminator(site.block));
        let f1 = splice::split(f, site.block, site.at);
        lemma_retargeted(
            splice::cut(f, site.block, site.at),
            list,
            site.block,
            cont,
            list.len() as int,
        );
        let base = f1.blocks.len();
        let f2 = splice::clones_added(f1, marks, n);
        lemma_clones_added(f1, marks, n);
        let map2 = splice::bound(g.params, args, args.len() as int);
        let (f3, map3) = splice::imported(f2, g, map2, g.values.len() as int);
        lemma_imported(f2, g, map2, g.values.len() as int);
        let c3 = CopyView { marks, base, map: map3 };
        let (f4, map) = splice::allocated(f3, g, c3, n);
        lemma_allocated(f3, g, c3, n);
        let c = CopyView { marks, base, map };
        lemma_filled(f4, g, c, cont, n);
    }
}

/// A step that only touches function `idx`, and keeps its header.
pub open spec fn touches_only(s: Expansion, t: Expansion, idx: int) -> bool {
    &&& t.funcs.len() == s.funcs.len()
    &&& forall|j: int| 0 <= j < s.funcs.len() ==> same_header(s.funcs[j], #[trigger] t.funcs[j])
    &&& forall|j: int| 0 <= j < s.funcs.len() && j != idx ==> #[trigger] t.funcs[j] == s.funcs[j]
}

proof fn lemma_sites_tried(s: Expansion, idx: int, source: FuncView, c: CandidateView, k: int)
    requires
        0 <= idx < s.funcs.len(),
    ensures
        touches_only(s, recursive_inline::sites_tried(s, idx, source, c, k), idx),
    decreases k,
{
    if k > 0 {
        let site = c.sites[k - 1];
        let t = recursive_inline::site_tried(s, idx, source, c.growth, site);
        inlining_keeps_the_header(s.funcs[idx], source, site);
        assert(touches_only(s, t, idx));
        lemma_sites_tried(t, idx, source, c, k - 1);
        let u = recursive_inline::sites_tried(t, idx, source, c, k - 1);
        assert forall|j: int| 0 <= j < s.funcs.len() implies same_header(
            s.funcs[j],
            #[trigger] u.funcs[j],
        ) by {
            assert(same_header(s.funcs[j], t.funcs[j]));
        }
        assert forall|j: int| 0 <= j < s.funcs.len() && j != idx implies #[trigger] u.funcs[j]
            == s.funcs[j] by {
            assert(t.funcs[j] == s.funcs[j]);
        }
    }
}

/// A step that only touches eligible functions, and keeps their headers.
pub open spec fn touches_eligible(s: Expansion, t: Expansion, eligible: Seq<bool>) -> bool {
    &&& t.funcs.len() == s.funcs.len()
    &&& forall|j: int| 0 <= j < s.funcs.len() ==> same_header(s.funcs[j], #[trigger] t.funcs[j])
    &&& forall|j: int|
        0 <= j < s.funcs.len() && !eligible[j] ==> #[trigger] t.funcs[j] == s.funcs[j]
}

proof fn lemma_funcs_tried(
    s: Expansion,
    snapshots: Seq<FuncView>,
    eligible: Seq<bool>,
    n: int,
)
    requires
        n <= s.funcs.len(),
    ensures
        touches_eligible(
            s,
            recursive_inline::funcs_tried(s, snapshots, eligible, n),
            eligible,
        ),
    decreases n,
{
    if n > 0 {
        lemma_funcs_tried(s, snapshots, eligible, n - 1);
        let t = recursive_inline::funcs_tried(s, snapshots, eligible, n - 1);
        let id = FunctionId((n - 1) as usize);
        if eligible[n - 1] {
            if let Some(c) = analyze::candidate_of(
                snapshots[n - 1],
                id,
                analyze::names_of(snapshots),
            ) {
                let k = c.sites.len() as int;
                lemma_sites_tried(t, n - 1, snapshots[n - 1], c, k);
                let u = recursive_inline::sites_tried(t, n - 1, snapshots[n - 1], c, k);
                assert forall|j: int| 0 <= j < s.funcs.len() implies same_header(
                    s.funcs[j],
                    #[trigger] u.funcs[j],
                ) by {
                    assert(same_header(s.funcs[j], t.funcs[j]));
                }
                assert forall|j: int| 0 <= j < s.funcs.len() && !eligible[j] implies
                #[trigger] u.funcs[j] == s.funcs[j] by {
                    assert(t.funcs[j] == s.funcs[j]);
                }
            }
        }
    }
}

proof fn lemma_rounds(s: Expansion, eligible: Seq<bool>, n: nat)
    ensures
        touches_eligible(s, recursive_inline::rounds(s, eligible, n), eligible),
    decreases n,
{
    if n > 0 {
        let start = Expansion { changed: false, ..s };
        let t = recursive_inline::funcs_tried(start, s.funcs, eligible, s.funcs.len() as int);
        lemma_funcs_tried(start, s.funcs, eligible, s.funcs.len() as int);
        if t.changed {
            lemma_rounds(t, eligible, (n - 1) as nat);
            let u = recursive_inline::rounds(t, eligible, (n - 1) as nat);
            assert forall|j: int| 0 <= j < s.funcs.len() implies same_header(
                s.funcs[j],
                #[trigger] u.funcs[j],
            ) by {
                assert(same_header(s.funcs[j], t.funcs[j]));
            }
            assert forall|j: int| 0 <= j < s.funcs.len() && !eligible[j] implies
            #[trigger] u.funcs[j] == s.funcs[j] by {
                assert(t.funcs[j] == s.funcs[j]);
            }
        }
    }
}

/// A function that is not eligible is left as it is.
pub proof fn other_functions_stay(m: ModuleView, n: nat, i: int)
    requires
        0 <= i < m.funcs.len(),
        !recursive_inline::eligible_of(m.funcs)[i],
    ensures
        recursive_inline::expanded(m, n).funcs[i] == m.funcs[i],
{
    lemma_rounds(
        recursive_inline::start(m.funcs),
        recursive_inline::eligible_of(m.funcs),
        n,
    );
}

/// Once a function is decided on, it stays decided.
pub proof fn eligible_functions_are_decided(m: ModuleView, n: nat, i: int)
    requires
        0 <= i < m.funcs.len(),
        recursive_inline::eligible_of(m.funcs)[i],
    ensures
        recursive_inline::expanded(m, n).funcs[i].recursive_cfg_inline_decided,
{
    lemma_rounds(
        recursive_inline::start(m.funcs),
        recursive_inline::eligible_of(m.funcs),
        n,
    );
}

proof fn lemma_nothing_eligible(s: Expansion, snapshots: Seq<FuncView>, eligible: Seq<bool>, n: int)
    requires
        n <= eligible.len(),
        forall|j: int| 0 <= j < eligible.len() ==> !(#[trigger] eligible[j]),
    ensures
        recursive_inline::funcs_tried(s, snapshots, eligible, n) == s,
    decreases n,
{
    if n > 0 {
        lemma_nothing_eligible(s, snapshots, eligible, n - 1);
    }
}

/// A second run changes nothing, however many rounds the two runs have.
pub proof fn expansion_is_idempotent(m: ModuleView, n: nat, k: nat)
    ensures
        recursive_inline::expanded(recursive_inline::expanded(m, n), k)
            == recursive_inline::expanded(m, n),
{
    let e = recursive_inline::eligible_of(m.funcs);
    let after = recursive_inline::rounds(recursive_inline::start(m.funcs), e, n);
    lemma_rounds(recursive_inline::start(m.funcs), e, n);
    let m2 = recursive_inline::expanded(m, n);
    let e2 = recursive_inline::eligible_of(m2.funcs);
    assert(analyze::names_of(m2.funcs) =~= analyze::names_of(m.funcs)) by {
        assert forall|j: int| 0 <= j < m.funcs.len() implies (#[trigger] m2.funcs[j]).name
            == m.funcs[j].name by {
            assert(same_header(m.funcs[j], after.funcs[j]));
        }
    }
    assert forall|j: int| 0 <= j < e2.len() implies !(#[trigger] e2[j]) by {
        if e[j] {
            assert(m2.funcs[j].recursive_cfg_inline_decided);
        } else {
            assert(m2.funcs[j] == m.funcs[j]);
        }
    }
    let s2 = recursive_inline::start(m2.funcs);
    lemma_nothing_eligible(s2, m2.funcs, e2, m2.funcs.len() as int);
    assert(recursive_inline::rounds(s2, e2, k).funcs == m2.funcs);
    assert(recursive_inline::decided(m2.funcs, e2) =~= m2.funcs);
}

proof fn lemma_sites_valid(s: Expansion, idx: int, source: FuncView, c: CandidateView, k: int)
    requires
        0 <= idx < s.funcs.len(),
        verify::valid(s.funcs[idx]),
    ensures
        verify::valid(recursive_inline::sites_tried(s, idx, source, c, k).funcs[idx]),
    decreases k,
{
    if k > 0 {
        let t = recursive_inline::site_tried(s, idx, source, c.growth, c.sites[k - 1]);
        lemma_sites_valid(t, idx, source, c, k - 1);
    }
}

pub open spec fn funcs_valid(funcs: Seq<FuncView>) -> bool {
    forall|j: int| 0 <= j < funcs.len() ==> verify::valid(#[trigger] funcs[j])
}

proof fn lemma_funcs_valid(s: Expansion, snapshots: Seq<FuncView>, eligible: Seq<bool>, n: int)
    requires
        n <= s.funcs.len(),
        funcs_valid(s.funcs),
    ensures
        funcs_valid(recursive_inline::funcs_tried(s, snapshots, eligible, n).funcs),
    decreases n,
{
    if n > 0 {
        lemma_funcs_valid(s, snapshots, eligible, n - 1);
        lemma_funcs_tried(s, snapshots, eligible, n - 1);
        let t = recursive_inline::funcs_tried(s, snapshots, eligible, n - 1);
        let id = FunctionId((n - 1) as usize);
        if eligible[n - 1] {
            if let Some(c) = analyze::candidate_of(
                snapshots[n - 1],
                id,
                analyze::names_of(snapshots),
            ) {
                let k = c.sites.len() as int;
                let u = recursive_inline::sites_tried(t, n - 1, snapshots[n - 1], c, k);
                lemma_sites_tried(t, n - 1, snapshots[n - 1], c, k);
                lemma_sites_valid(t, n - 1, snapshots[n - 1], c, k);
                assert forall|j: int| 0 <= j < u.funcs.len() implies verify::valid(
                    #[trigger] u.funcs[j],
                ) by {
                    if j != n - 1 {
                        assert(u.funcs[j] == t.funcs[j]);
                    }
                }
            }
        }
    }
}

proof fn lemma_rounds_valid(s: Expansion, eligible: Seq<bool>, n: nat)
    requires
        funcs_valid(s.funcs),
    ensures
        funcs_valid(recursive_inline::rounds(s, eligible, n).funcs),
    decreases n,
{
    if n > 0 {
        let start = Expansion { changed: false, ..s };
        let t = recursive_inline::funcs_tried(start, s.funcs, eligible, s.funcs.len() as int);
        lemma_funcs_valid(start, s.funcs, eligible, s.funcs.len() as int);
        if t.changed {
            lemma_rounds_valid(t, eligible, (n - 1) as nat);
        }
    }
}

proof fn lemma_plan_valid(
    f: FuncView,
    funcs: Seq<FuncView>,
    plan: Seq<recursive_inline::PlannedSite>,
    k: int,
)
    requires
        verify::valid(f),
    ensures
        verify::valid(recursive_inline::plan_applied(f, funcs, plan, k)),
    decreases k,
{
    if k > 0 {
        let p = plan[k - 1];
        let g = match splice::inlined(f, funcs[p.callee.0 as int], p.site) {
            Some(g) => g,
            None => f,
        };
        lemma_plan_valid(g, funcs, plan, k - 1);
    }
}

/// Inlining keeps valid functions valid.
pub proof fn inlining_keeps_validity(m: ModuleView, rounds: nat, globals: bool)
    requires
        verify::all_valid(m),
    ensures
        verify::all_valid(recursive_inline::expanded(m, rounds)),
        verify::all_valid(recursive_inline::cfg_inlined(m, globals)),
{
    let e = recursive_inline::eligible_of(m.funcs);
    let start = recursive_inline::start(m.funcs);
    let after = recursive_inline::rounds(start, e, rounds);
    lemma_rounds(start, e, rounds);
    lemma_rounds_valid(start, e, rounds);
    let x = recursive_inline::expanded(m, rounds);
    assert forall|j: int| 0 <= j < x.funcs.len() implies verify::valid(#[trigger] x.funcs[j]) by {
        verify::validity_depends_on_the_code(after.funcs[j], x.funcs[j]);
    }
    let y = recursive_inline::cfg_inlined(m, globals);
    assert forall|j: int| 0 <= j < y.funcs.len() implies verify::valid(#[trigger] y.funcs[j]) by {
        let plan = recursive_inline::plan_of(m.funcs, j, globals);
        assert(verify::valid(m.funcs[j]));
        lemma_plan_valid(m.funcs[j], m.funcs, plan, plan.len() as int);
    }
}

} // verus!
