//! Merging the ends of two blocks keeps what a function computes.
use vstd::prelude::*;

use crate::cfg;
use crate::edit;
use crate::ir::{BlockId, FuncView, InstView, KindView, Terminator, ValueId};
use crate::pass::simplify_cfg::meaning_laws;
use crate::pass::simplify_cfg::structural;
use crate::pass::simplify_cfg::tail_merge;
use crate::pass::simplify_cfg::tail_merge::{TailDifference, TailPair};
use crate::pass::simplify_cfg::threading_laws;
use crate::query;
use crate::semantics;
use crate::semantics::{Meaning, State};
use crate::util;
use crate::verify;

verus! {

// ---------------------------------------------------------------------------
// The phis of a block
// ---------------------------------------------------------------------------

/// The list is strictly ascending.
pub open spec fn ascending(list: Seq<usize>) -> bool {
    forall|i: int, j: int| 0 <= i < j < list.len() ==> (#[trigger] list[i]) < (#[trigger] list[j])
}

proof fn lemma_leading_ascending(insts: Seq<InstView>, i: int)
    requires
        0 <= i,
        insts.len() <= usize::MAX,
    ensures
        ascending(query::leading_from(insts, i)),
    decreases insts.len() - i,
{
    if i < insts.len() {
        lemma_leading_ascending(insts, i + 1);
        query::lemma_leading_from(insts, i + 1);
        let list = query::leading_from(insts, i);
        let rest = query::leading_from(insts, i + 1);
        if insts[i].kind is Phi {
            assert forall|a: int, b: int| 0 <= a < b < list.len() implies (#[trigger] list[a]) < (
            #[trigger] list[b]) by {
                assert(list[b] == rest[b - 1]);
                if a > 0 {
                    assert(list[a] == rest[a - 1]);
                }
            }
        }
    }
}

proof fn lemma_filter_ascending(list: Seq<usize>, keep: spec_fn(usize) -> bool)
    requires
        ascending(list),
    ensures
        ascending(list.filter(keep)),
    decreases list.len(),
{
    reveal(Seq::filter);
    if list.len() > 0 {
        let front = list.drop_last();
        assert(ascending(front)) by {
            assert forall|i: int, j: int| 0 <= i < j < front.len() implies (#[trigger] front[i]) < (
            #[trigger] front[j]) by {
                assert(front[i] == list[i]);
                assert(front[j] == list[j]);
            }
        }
        lemma_filter_ascending(front, keep);
        let kept = front.filter(keep);
        let all = list.filter(keep);
        assert forall|i: int, j: int| 0 <= i < j < all.len() implies (#[trigger] all[i]) < (
        #[trigger] all[j]) by {
            if j == kept.len() {
                front.lemma_filter_contains_rev(keep, kept[i]);
                let k = choose|k: int| 0 <= k < front.len() && front[k] == kept[i];
                assert(list[k] < list[list.len() - 1]);
            }
        }
    }
}

pub proof fn lemma_leading_complete(insts: Seq<InstView>, i: int, at: int)
    requires
        0 <= i <= at < insts.len() <= usize::MAX,
        insts[at].kind is Phi,
        verify::phis_lead(insts, at),
    ensures
        query::leading_from(insts, i).contains(at as usize),
    decreases at - i,
{
    let list = query::leading_from(insts, i);
    if i == at {
        assert(list[0] == at as usize);
    } else {
        assert(insts[i].kind is Phi || insts[i].kind is Nop);
        lemma_leading_complete(insts, i + 1, at);
        let rest = query::leading_from(insts, i + 1);
        let k = choose|k: int| 0 <= k < rest.len() && rest[k] == at as usize;
        if insts[i].kind is Phi {
            assert(list[k + 1] == rest[k]);
        }
    }
}

/// The list of the phis that define a value: which instructions it names.
proof fn lemma_live_phis(insts: Seq<InstView>)
    requires
        insts.len() <= usize::MAX,
        forall|i: int|
            0 <= i < insts.len() && (#[trigger] insts[i]).kind is Phi ==> verify::phis_lead(
                insts,
                i,
            ),
    ensures
        ascending(tail_merge::live_phis(insts)),
        forall|k: int|
            0 <= k < tail_merge::live_phis(insts).len() ==> ({
                let i = (#[trigger] tail_merge::live_phis(insts)[k]) as int;
                0 <= i < insts.len() && insts[i].kind is Phi && insts[i].result is Some
            }),
        forall|i: int|
            0 <= i < insts.len() && (#[trigger] insts[i]).kind is Phi && insts[i].result is Some
                ==> tail_merge::live_phis(insts).contains(i as usize),
{
    let list = query::leading_from(insts, 0);
    let keep = tail_merge::defines(insts);
    let phis = tail_merge::live_phis(insts);
    query::lemma_leading_from(insts, 0);
    lemma_leading_ascending(insts, 0);
    lemma_filter_ascending(list, keep);
    assert forall|k: int| 0 <= k < phis.len() implies ({
        let i = (#[trigger] phis[k]) as int;
        0 <= i < insts.len() && insts[i].kind is Phi && insts[i].result is Some
    }) by {
        list.lemma_filter_pred(keep, k);
        list.lemma_filter_contains_rev(keep, phis[k]);
        let j = choose|j: int| 0 <= j < list.len() && list[j] == phis[k];
        assert(insts[list[j] as int].kind is Phi);
    }
    assert forall|i: int|
        0 <= i < insts.len() && (#[trigger] insts[i]).kind is Phi && insts[i].result
            is Some implies phis.contains(i as usize) by {
        lemma_leading_complete(insts, 0, i);
        let j = choose|j: int| 0 <= j < list.len() && list[j] == i as usize;
        list.lemma_filter_contains(keep, j);
    }
}

// ---------------------------------------------------------------------------
// What the search finds
// ---------------------------------------------------------------------------

/// What phi number `k` takes along the two edges.
pub open spec fn taken(f: FuncView, h: BlockId, k: int, pred: BlockId) -> Option<ValueId> {
    query::sole_incoming(
        tail_merge::entries(f.inst(h, tail_merge::live_phis(f.block(h).insts)[k] as int)),
        pred,
    )
}

/// From number `k` on, the phis take the same along the two edges.
pub open spec fn take_the_same(f: FuncView, h: BlockId, k: int, lp: BlockId, rp: BlockId) -> bool {
    forall|j: int|
        k <= j < tail_merge::live_phis(f.block(h).insts).len() ==> (#[trigger] taken(f, h, j, lp))
            is Some && taken(f, h, j, lp) == taken(f, h, j, rp)
}

proof fn lemma_compared_rest(
    f: FuncView,
    h: BlockId,
    k: int,
    lp: BlockId,
    rp: BlockId,
    d: TailDifference,
)
    requires
        0 <= k,
    ensures
        tail_merge::compared_from(f, h, k, lp, rp, Some(d)) matches Some(e) ==> e == Some(d)
            && take_the_same(f, h, k, lp, rp),
    decreases tail_merge::live_phis(f.block(h).insts).len() - k,
{
    if k < tail_merge::live_phis(f.block(h).insts).len() {
        lemma_compared_rest(f, h, k + 1, lp, rp, d);
        if tail_merge::compared_from(f, h, k, lp, rp, Some(d)) is Some {
            assert(taken(f, h, k, lp) is Some);
            assert forall|j: int|
                k <= j < tail_merge::live_phis(f.block(h).insts).len() implies (#[trigger] taken(
                f,
                h,
                j,
                lp,
            )) is Some && taken(f, h, j, lp) == taken(f, h, j, rp) by {
            }
        }
    }
}

/// The one phi in which the edges differ.
proof fn lemma_compared(f: FuncView, h: BlockId, k: int, lp: BlockId, rp: BlockId) -> (r: (
    int,
    ValueId,
))
    requires
        0 <= k,
        tail_merge::compared_from(f, h, k, lp, rp, None) matches Some(Some(_)),
    ensures
        ({
            let phis = tail_merge::live_phis(f.block(h).insts);
            let d = tail_merge::compared_from(f, h, k, lp, rp, None)->Some_0->Some_0;
            &&& k <= r.0 < phis.len()
            &&& phis[r.0] == d.phi_at
            &&& taken(f, h, r.0, lp) == Some(d.lhs)
            &&& taken(f, h, r.0, rp) == Some(r.1)
            &&& d.lhs != r.1
            &&& tail_merge::difference(f, d.phi_at, lp, rp, d.lhs, r.1) == Some(d)
            &&& forall|j: int|
                k <= j < phis.len() && j != r.0 ==> (#[trigger] taken(f, h, j, lp)) is Some
                    && taken(f, h, j, lp) == taken(f, h, j, rp)
        }),
    decreases tail_merge::live_phis(f.block(h).insts).len() - k,
{
    let phis = tail_merge::live_phis(f.block(h).insts);
    let l = taken(f, h, k, lp)->Some_0;
    let v = taken(f, h, k, rp)->Some_0;
    if l == v {
        assert(taken(f, h, k, lp) is Some);
        lemma_compared(f, h, k + 1, lp, rp)
    } else {
        let d = tail_merge::difference(f, phis[k], lp, rp, l, v)->Some_0;
        lemma_compared_rest(f, h, k + 1, lp, rp, d);
        (k, v)
    }
}

/// The last place of the list is the last one that holds an operation.
proof fn lemma_active_last(insts: Seq<InstView>, n: int, i: int)
    requires
        0 <= i < n <= insts.len() <= usize::MAX,
        !(insts[i].kind is Nop),
    ensures
        query::active_below(insts, n).len() > 0,
        i <= query::active_below(insts, n).last(),
    decreases n,
{
    if i < n - 1 {
        lemma_active_last(insts, n - 1, i);
    }
}

proof fn lemma_tail_place(f: FuncView, b: BlockId, v: ValueId)
    requires
        threading_laws::fits(f),
        f.has_block(b),
    ensures
        tail_merge::tail_place(f, b, v) matches Some(at) ==> f.has_inst(b, at as int) && f.inst(
            b,
            at as int,
        ).result == Some(v) && forall|i: int|
            at < i < f.block(b).insts.len() ==> (#[trigger] f.block(b).insts[i]).kind is Nop,
{
    if let Some(at) = tail_merge::tail_place(f, b, v) {
        let insts = f.block(b).insts;
        assert(f.has_block(b));
        assert forall|i: int| at < i < insts.len() implies (#[trigger] insts[i]).kind is Nop by {
            if !(insts[i].kind is Nop) {
                lemma_active_last(insts, insts.len() as int, i);
            }
        }
    }
}

/// The pair as it stands in the function; `r` is the update of the second
/// block.
#[verifier::opaque]
pub open spec fn stands(f: FuncView, p: TailPair, r: ValueId) -> bool {
    let h = p.header;
    let d = p.d;
    let phi = f.inst(h, d.phi_at as int);
    &&& f.has_block(h)
    &&& f.has_block(p.lp)
    &&& f.has_block(p.rp)
    &&& p.lp != p.rp
    &&& query::jump_of(f, p.lp) == Some(h)
    &&& query::jump_of(f, p.rp) == Some(h)
    &&& f.has_inst(p.lp, d.lhs_at as int)
    &&& f.inst(p.lp, d.lhs_at as int).result == Some(d.lhs)
    &&& f.has_inst(p.rp, d.rhs_at as int)
    &&& f.inst(p.rp, d.rhs_at as int).result == Some(r)
    &&& forall|i: int|
        d.lhs_at < i < f.block(p.lp).insts.len() ==> (#[trigger] f.block(p.lp).insts[i]).kind is Nop
    &&& forall|i: int|
        d.rhs_at < i < f.block(p.rp).insts.len() ==> (#[trigger] f.block(p.rp).insts[i]).kind is Nop
    &&& tail_merge::same_operation(
        f,
        f.inst(p.lp, d.lhs_at as int).kind,
        f.inst(p.rp, d.rhs_at as int).kind,
    )
    &&& f.has_inst(h, d.phi_at as int)
    &&& phi.kind is Phi
    &&& phi.result is Some
    &&& util::incoming_from(tail_merge::entries(phi), p.lp) == Some(d.lhs)
    &&& util::incoming_from(tail_merge::entries(phi), p.rp) == Some(r)
    &&& forall|i: int|
        0 <= i < f.block(h).insts.len() && (#[trigger] f.block(h).insts[i]).kind is Phi && f.block(
            h,
        ).insts[i].result is Some && i != d.phi_at ==> query::sole_incoming(
            tail_merge::entries(f.block(h).insts[i]),
            p.lp,
        ) is Some && util::incoming_from(tail_merge::entries(f.block(h).insts[i]), p.lp)
            == util::incoming_from(tail_merge::entries(f.block(h).insts[i]), p.rp)
    &&& d.lhs != r
    &&& query::uses(f, d.lhs) == 1
    &&& query::uses(f, r) == 1
}

proof fn lemma_stands(f: FuncView, h: BlockId, lp: BlockId, rp: BlockId, p: TailPair) -> (r: ValueId)
    requires
        verify::valid(f),
        threading_laws::fits(f),
        f.has_block(h),
        f.has_block(lp),
        f.has_block(rp),
        query::jump_of(f, lp) == Some(h),
        query::jump_of(f, rp) == Some(h),
        tail_merge::compared_from(f, h, 0, lp, rp, None) == Some(Some(p.d)),
        p.header == h,
        p.lp == lp,
        p.rp == rp,
    ensures
        stands(f, p, r),
{
    reveal(stands);
    let insts = f.block(h).insts;
    let d = p.d;
    assert(f.has_block(h));
    assert forall|i: int| 0 <= i < insts.len() && (#[trigger] insts[i]).kind is Phi implies
        verify::phis_lead(insts, i) by {
        assert(verify::block_valid(f, h));
        assert(verify::inst_valid(f, h, i));
    }
    lemma_live_phis(insts);
    let phis = tail_merge::live_phis(insts);
    let (at, r) = lemma_compared(f, h, 0, lp, rp);
    lemma_tail_place(f, lp, d.lhs);
    lemma_tail_place(f, rp, r);
    assert(insts[phis[at] as int].kind is Phi);
    if lp == rp {
        assert(taken(f, h, at, lp) == taken(f, h, at, rp));
        assert(false);
    }
    assert forall|i: int|
        0 <= i < insts.len() && (#[trigger] insts[i]).kind is Phi && insts[i].result is Some && i
            != d.phi_at implies query::sole_incoming(tail_merge::entries(insts[i]), lp) is Some
        && util::incoming_from(tail_merge::entries(insts[i]), lp) == util::incoming_from(
        tail_merge::entries(insts[i]),
        rp,
    ) by {
        let k = choose|k: int| 0 <= k < phis.len() && phis[k] == i as usize;
        assert(phis[k] == i);
        assert(taken(f, h, k, lp) is Some);
    }
    r
}

proof fn lemma_pairs(f: FuncView, h: BlockId, i: int, j: int, work: nat) -> (r: (int, int))
    requires
        0 <= i,
        0 <= j,
        tail_merge::pairs_from(f, h, i, j, work).found is Some,
    ensures
        ({
            let list = tail_merge::sources(f, h);
            let p = tail_merge::pairs_from(f, h, i, j, work).found->Some_0;
            &&& 0 <= r.0 < list.len()
            &&& 0 <= r.1 < list.len()
            &&& p.header == h
            &&& p.lp == list[r.0]
            &&& p.rp == list[r.1]
            &&& tail_merge::compared_from(f, h, 0, p.lp, p.rp, None) == Some(Some(p.d))
        }),
    decreases tail_merge::sources(f, h).len() - i, tail_merge::sources(f, h).len() - j,
{
    let list = tail_merge::sources(f, h);
    if j >= list.len() {
        lemma_pairs(f, h, i + 1, i + 2, work)
    } else {
        match tail_merge::compared_from(f, h, 0, list[i], list[j], None) {
            Some(Some(d)) => (i, j),
            _ => lemma_pairs(f, h, i, j + 1, work + 1),
        }
    }
}

proof fn lemma_source(f: FuncView, h: BlockId, k: int)
    requires
        f.blocks.len() <= usize::MAX,
        0 <= k < tail_merge::sources(f, h).len(),
    ensures
        f.has_block(tail_merge::sources(f, h)[k]),
        query::jump_of(f, tail_merge::sources(f, h)[k]) == Some(h),
{
    let all = cfg::preds(f, h);
    let keep = tail_merge::jumps_to(f, h);
    let b = tail_merge::sources(f, h)[k];
    all.lemma_filter_pred(keep, k);
    all.lemma_filter_contains_rev(keep, b);
    cfg::lemma_preds_below(f, h, f.blocks.len() as int, b);
}

proof fn lemma_first_pair(f: FuncView, h: int, work: nat) -> (r: ValueId)
    requires
        verify::valid(f),
        threading_laws::fits(f),
        0 <= h,
        tail_merge::first_pair(f, h, work) is Some,
    ensures
        stands(f, tail_merge::first_pair(f, h, work)->Some_0, r),
    decreases f.blocks.len() - h,
{
    let id = BlockId(h as usize);
    let scan = tail_merge::pairs_from(f, id, 0, 1, work);
    if tail_merge::live_phis(f.block(id).insts).len() == 0 {
        lemma_first_pair(f, h + 1, work)
    } else if scan.stopped || scan.found is Some {
        let (i, j) = lemma_pairs(f, id, 0, 1, work);
        lemma_source(f, id, i);
        lemma_source(f, id, j);
        let p = scan.found->Some_0;
        lemma_stands(f, id, p.lp, p.rp, p)
    } else {
        lemma_first_pair(f, h + 1, scan.work)
    }
}

// ---------------------------------------------------------------------------
// The updates are read once
// ---------------------------------------------------------------------------

proof fn lemma_two_occurrences(list: Seq<ValueId>, v: ValueId, i: int, j: int)
    requires
        0 <= i < j < list.len(),
        list[i] == v,
        list[j] == v,
    ensures
        query::occurrences(list, v) >= 2,
    decreases list.len(),
{
    let front = list.drop_last();
    if j == list.len() - 1 {
        assert(front[i] == v);
        threading_laws::lemma_no_occurrence(front, v);
    } else {
        lemma_two_occurrences(front, v, i, j);
    }
}

proof fn lemma_two_insts(insts: Seq<InstView>, v: ValueId, n: int, i: int, j: int)
    requires
        0 <= i < n <= insts.len(),
        0 <= j < n,
        i != j,
    ensures
        query::insts_uses(insts, v, n) >= query::occurrences(edit::operands(insts[i].kind), v)
            + query::occurrences(edit::operands(insts[j].kind), v),
    decreases n,
{
    if i == n - 1 {
        threading_laws::lemma_insts_uses(insts, v, n - 1, j);
    } else if j == n - 1 {
        threading_laws::lemma_insts_uses(insts, v, n - 1, i);
    } else {
        lemma_two_insts(insts, v, n - 1, i, j);
    }
}

/// Nothing reads `v` but the phi at `at` of block `h`, along the edge from
/// `pred`.
pub open spec fn read_along(f: FuncView, v: ValueId, h: BlockId, at: int, pred: BlockId) -> bool {
    &&& forall|c: BlockId, i: int|
        f.has_block(c) && 0 <= i < f.block(c).insts.len() && !(c == h && i == at)
            ==> semantics::ignores((#[trigger] f.block(c).insts[i]).kind, set![v])
    &&& forall|c: BlockId|
        f.has_block(c) ==> !edit::terminator_reads(#[trigger] f.terminator(c)).contains(v)
    &&& forall|k: int|
        0 <= k < tail_merge::entries(f.inst(h, at)).len() && (#[trigger] tail_merge::entries(
            f.inst(h, at),
        )[k]).1 == v ==> tail_merge::entries(f.inst(h, at))[k].0 == pred
}

pub proof fn lemma_read_along(f: FuncView, v: ValueId, h: BlockId, at: int, pred: BlockId)
    requires
        f.has_inst(h, at),
        f.inst(h, at).kind is Phi,
        util::incoming_from(tail_merge::entries(f.inst(h, at)), pred) == Some(v),
        query::uses(f, v) == 1,
    ensures
        read_along(f, v, h, at, pred),
{
    let n = f.blocks.len() as int;
    let phi = f.inst(h, at);
    let incomings = tail_merge::entries(phi);
    let reads = edit::operands(phi.kind);
    threading_laws::lemma_incoming_entry(incomings, pred);
    let own = choose|k: int| 0 <= k < incomings.len() && #[trigger] incomings[k] == (pred, v);
    assert(reads[own] == v);
    threading_laws::lemma_no_occurrence(reads, v);
    threading_laws::lemma_insts_uses(f.block(h).insts, v, f.block(h).insts.len() as int, at);
    assert forall|c: BlockId, i: int|
        f.has_block(c) && 0 <= i < f.block(c).insts.len() && !(c == h && i == at) implies
        semantics::ignores((#[trigger] f.block(c).insts[i]).kind, set![v]) by {
        let list = edit::operands(f.block(c).insts[i].kind);
        threading_laws::lemma_two_blocks(f, v, n, h.0 as int, c.0 as int);
        let count = f.block(c).insts.len() as int;
        if c == h {
            lemma_two_insts(f.block(c).insts, v, count, at, i);
        } else {
            threading_laws::lemma_insts_uses(f.block(c).insts, v, count, i);
        }
        threading_laws::lemma_no_occurrence(list, v);
    }
    assert forall|c: BlockId| f.has_block(c) implies !edit::terminator_reads(
        #[trigger] f.terminator(c),
    ).contains(v) by {
        threading_laws::lemma_two_blocks(f, v, n, h.0 as int, c.0 as int);
        threading_laws::lemma_no_occurrence(edit::terminator_reads(f.terminator(c)), v);
    }
    assert forall|k: int|
        0 <= k < incomings.len() && (#[trigger] incomings[k]).1 == v implies incomings[k].0
        == pred by {
        assert(reads[k] == v);
        threading_laws::lemma_two_blocks(f, v, n, h.0 as int, h.0 as int);
        if k < own {
            lemma_two_occurrences(reads, v, k, own);
        } else if own < k {
            lemma_two_occurrences(reads, v, own, k);
        }
    }
}

// ---------------------------------------------------------------------------
// The merged function
// ---------------------------------------------------------------------------

/// Place `i` is among the first `n` of the list.
pub open spec fn listed(phis: Seq<usize>, n: int, i: int) -> bool {
    exists|k: int| 0 <= k < n && (#[trigger] phis[k]) == i
}

proof fn lemma_phis_merged(
    f: FuncView,
    phis: Seq<usize>,
    p: TailPair,
    tail: BlockId,
    merged: ValueId,
    n: int,
)
    requires
        0 <= n <= phis.len(),
        ascending(phis),
        f.has_block(p.header),
        forall|k: int| 0 <= k < phis.len() ==> (#[trigger] phis[k]) < f.block(p.header).insts.len(),
    ensures
        ({
            let g = tail_merge::phis_merged(f, phis, p, tail, merged, n);
            let x = f.block(p.header).insts;
            let y = g.block(p.header).insts;
            &&& g == (FuncView { blocks: g.blocks, ..f })
            &&& g.blocks.len() == f.blocks.len()
            &&& forall|b: BlockId| #[trigger]
                f.has_block(b) ==> g.terminator(b) == f.terminator(b) && (b != p.header ==> g.block(
                    b,
                ) == f.block(b))
            &&& y.len() == x.len()
            &&& forall|i: int|
                0 <= i < x.len() ==> (#[trigger] y[i]) == if listed(phis, n, i) {
                    tail_merge::merged_phi(x[i], i as usize, p, tail, merged)
                } else {
                    x[i]
                }
        }),
    decreases n,
{
    if n > 0 {
        lemma_phis_merged(f, phis, p, tail, merged, n - 1);
        let before = tail_merge::phis_merged(f, phis, p, tail, merged, n - 1);
        let g = tail_merge::phis_merged(f, phis, p, tail, merged, n);
        let x = f.block(p.header).insts;
        let y = g.block(p.header).insts;
        let at = phis[n - 1] as int;
        assert(!listed(phis, n - 1, at)) by {
            if listed(phis, n - 1, at) {
                let k = choose|k: int| 0 <= k < n - 1 && (#[trigger] phis[k]) == at;
                assert(phis[k] < phis[n - 1]);
            }
        }
        assert(before.block(p.header).insts[at] == x[at]);
        assert forall|i: int| 0 <= i < x.len() implies (#[trigger] y[i]) == if listed(
            phis,
            n,
            i,
        ) {
            tail_merge::merged_phi(x[i], i as usize, p, tail, merged)
        } else {
            x[i]
        } by {
            assert(before.block(p.header).insts[i] == if listed(phis, n - 1, i) {
                tail_merge::merged_phi(x[i], i as usize, p, tail, merged)
            } else {
                x[i]
            });
            if i == at {
                assert(phis[n - 1] == i);
                assert(listed(phis, n, i));
            } else if listed(phis, n, i) {
                let k = choose|k: int| 0 <= k < n && (#[trigger] phis[k]) == i;
                assert(k < n - 1);
                assert(listed(phis, n - 1, i));
            } else if listed(phis, n - 1, i) {
                let k = choose|k: int| 0 <= k < n - 1 && (#[trigger] phis[k]) == i;
                assert(phis[k] == i);
                assert(listed(phis, n, i));
            }
        }
    }
}

/// The place is that of an update that has been merged.
pub open spec fn is_gone(p: TailPair, b: BlockId, i: int) -> bool {
    (b == p.lp && i == p.d.lhs_at) || (b == p.rp && i == p.d.rhs_at)
}

/// The instruction of the merged function.
pub open spec fn merged_inst(f: FuncView, p: TailPair, b: BlockId, i: int) -> InstView {
    let inst = f.block(b).insts[i];
    if is_gone(p, b, i) {
        edit::nop()
    } else if b == p.header && inst.kind is Phi && inst.result is Some {
        tail_merge::merged_phi(inst, i as usize, p, f.next_block(), f.next_value())
    } else {
        inst
    }
}

/// The merged function, block by block.
#[verifier::opaque]
pub open spec fn described(f: FuncView, g: FuncView, p: TailPair) -> bool {
    let tail = f.next_block();
    &&& g.entry == f.entry
    &&& g.values.len() == f.values.len() + 1
    &&& forall|v: int| 0 <= v < f.values.len() ==> (#[trigger] g.values[v]) == f.values[v]
    &&& g.blocks.len() == f.blocks.len() + 1
    &&& g.block(tail).insts == seq![
        InstView {
            result: Some(f.next_value()),
            kind: f.inst(p.lp, p.d.lhs_at as int).kind,
        },
    ]
    &&& g.terminator(tail) == Some(Terminator::Jump(p.header))
    &&& forall|b: BlockId| #[trigger]
        f.has_block(b) ==> g.terminator(b) == (if b == p.lp || b == p.rp {
            Some(Terminator::Jump(tail))
        } else {
            f.terminator(b)
        }) && g.block(b).insts.len() == f.block(b).insts.len()
    &&& forall|b: BlockId, i: int|
        f.has_block(b) && 0 <= i < f.block(b).insts.len() ==> (#[trigger] g.block(b).insts[i])
            == merged_inst(f, p, b, i)
}

/// The numbers of blocks, instructions and values leave room for one more.
pub open spec fn has_room(f: FuncView) -> bool {
    threading_laws::fits(f) && f.blocks.len() < usize::MAX && f.values.len() < usize::MAX
}

proof fn lemma_described(f: FuncView, p: TailPair, r: ValueId)
    requires
        verify::valid(f),
        has_room(f),
        stands(f, p, r),
    ensures
        described(f, tail_merge::tails_merged(f, p), p),
{
    reveal(stands);
    reveal(described);
    let g = tail_merge::tails_merged(f, p);
    let d = p.d;
    let tail = f.next_block();
    let merged = f.next_value();
    let f1 = f.add_block("tail.merge"@);
    let f2 = f1.append(tail, f.inst(p.lp, d.lhs_at as int).kind, f.value(d.lhs).ty);
    let f3 = f2.with_terminator(tail, Some(Terminator::Jump(p.header))).with_terminator(
        p.lp,
        Some(Terminator::Jump(tail)),
    ).with_terminator(p.rp, Some(Terminator::Jump(tail)));
    let f4 = f3.with_inst(p.lp, d.lhs_at as int, edit::nop()).with_inst(
        p.rp,
        d.rhs_at as int,
        edit::nop(),
    );
    let x = f.block(p.header).insts;
    let phis = tail_merge::live_phis(x);
    assert(f.has_block(p.header));
    assert forall|i: int| 0 <= i < x.len() && (#[trigger] x[i]).kind is Phi implies
        verify::phis_lead(x, i) by {
        assert(verify::block_valid(f, p.header));
        assert(verify::inst_valid(f, p.header, i));
    }
    lemma_live_phis(x);
    assert(tail != p.lp && tail != p.rp && tail != p.header);
    assert(f4.block(tail).insts =~= seq![
        InstView { result: Some(merged), kind: f.inst(p.lp, d.lhs_at as int).kind },
    ]);
    assert(f4.block(p.header).insts.len() == x.len());
    assert forall|k: int| 0 <= k < phis.len() implies (#[trigger] phis[k]) < f4.block(
        p.header,
    ).insts.len() by {
        assert(x[phis[k] as int].kind is Phi);
    }
    lemma_phis_merged(f4, phis, p, tail, merged, phis.len() as int);
    assert(f4.has_block(tail));
    assert forall|b: BlockId| #[trigger] f.has_block(b) implies g.terminator(b) == (if b == p.lp
        || b == p.rp {
        Some(Terminator::Jump(tail))
    } else {
        f.terminator(b)
    }) && g.block(b).insts.len() == f.block(b).insts.len() by {
        assert(f4.has_block(b));
    }
    assert forall|b: BlockId, i: int| f.has_block(b) && 0 <= i < f.block(b).insts.len() implies (
    #[trigger] g.block(b).insts[i]) == merged_inst(f, p, b, i) by {
        assert(f4.has_block(b));
        assert(f4.block(b).insts[i] == if is_gone(p, b, i) {
            edit::nop()
        } else {
            f.block(b).insts[i]
        });
        if b == p.header {
            let inst = x[i];
            if inst.kind is Phi && inst.result is Some {
                let k = choose|k: int| 0 <= k < phis.len() && phis[k] == i as usize;
                assert(phis[k] == i);
                assert(listed(phis, phis.len() as int, i));
                assert(!is_gone(p, b, i));
            } else if listed(phis, phis.len() as int, i) {
                let k = choose|k: int| 0 <= k < phis.len() && (#[trigger] phis[k]) == i;
                assert(x[phis[k] as int].kind is Phi);
            }
        }
    }
}

// ---------------------------------------------------------------------------
// Running the merged function
// ---------------------------------------------------------------------------

/// The values in which the two runs differ.
pub open spec fn unread(f: FuncView, p: TailPair, r: ValueId) -> Set<ValueId> {
    set![p.d.lhs, r, f.next_value()]
}

/// Nothing but the phi reads the updates, and nothing of `f` reads the new
/// value.
proof fn lemma_unread(f: FuncView, p: TailPair, r: ValueId)
    requires
        f.wf(),
        has_room(f),
        stands(f, p, r),
    ensures
        forall|b: BlockId, i: int|
            f.has_block(b) && 0 <= i < f.block(b).insts.len() && !(b == p.header && i
                == p.d.phi_at) ==> semantics::ignores(
                (#[trigger] f.block(b).insts[i]).kind,
                unread(f, p, r),
            ),
        forall|b: BlockId, v: ValueId|
            #![trigger f.terminator(b), unread(f, p, r).contains(v)]
            f.has_block(b) && edit::terminator_reads(f.terminator(b)).contains(v)
                ==> !unread(f, p, r).contains(v),
        read_along(f, p.d.lhs, p.header, p.d.phi_at as int, p.lp),
        read_along(f, r, p.header, p.d.phi_at as int, p.rp),
{
    reveal(stands);
    let at = p.d.phi_at as int;
    lemma_read_along(f, p.d.lhs, p.header, at, p.lp);
    lemma_read_along(f, r, p.header, at, p.rp);
    assert forall|b: BlockId, i: int|
        f.has_block(b) && 0 <= i < f.block(b).insts.len() && !(b == p.header && i == at) implies
        semantics::ignores((#[trigger] f.block(b).insts[i]).kind, unread(f, p, r)) by {
        query::lemma_inst_wf(f, b, i);
        let kind = f.block(b).insts[i].kind;
        assert(semantics::ignores(kind, set![p.d.lhs]));
        assert(semantics::ignores(kind, set![r]));
        lemma_operands_in(kind, f.blocks.len(), f.values.len());
        let list = edit::operands(kind);
        assert forall|k: int| 0 <= k < list.len() implies !unread(f, p, r).contains(
            #[trigger] list[k],
        ) by {
            assert(!set![p.d.lhs].contains(list[k]));
            assert(!set![r].contains(list[k]));
            assert(list[k].0 < f.values.len());
        }
    }
    assert forall|b: BlockId, v: ValueId|
        #![trigger f.terminator(b), unread(f, p, r).contains(v)]
        f.has_block(b) && edit::terminator_reads(f.terminator(b)).contains(v) implies !unread(
        f,
        p,
        r,
    ).contains(v) by {
        query::lemma_terminator_wf(f, b);
        let reads = edit::terminator_reads(f.terminator(b));
        let k = choose|k: int| 0 <= k < reads.len() && reads[k] == v;
        assert(reads[k].0 < f.values.len());
    }
}

pub proof fn lemma_operands_in(kind: KindView, nb: nat, nv: nat)
    requires
        edit::kind_wf(kind, nb, nv),
    ensures
        forall|k: int|
            0 <= k < edit::operands(kind).len() ==> (#[trigger] edit::operands(kind)[k]).0 < nv,
{
    let list = edit::operands(kind);
    assert forall|k: int| 0 <= k < list.len() implies (#[trigger] list[k]).0 < nv by {
        if let KindView::Phi { incomings } = kind {
            assert(incomings[k].1.0 < nv);
        }
    }
}

/// The two operations have the same shape and see the same data.
proof fn lemma_same_operation<D, M>(
    f: FuncView,
    m: Meaning<D, M>,
    a: KindView,
    b: KindView,
    x: Map<ValueId, D>,
    y: Map<ValueId, D>,
    gone: Set<ValueId>,
)
    requires
        tail_merge::same_operation(f, a, b),
        semantics::alike(y, x, gone),
        semantics::ignores(a, gone),
        meaning_laws::constants_kept(f, m, y),
        edit::reads_wf(edit::operands(a), f.values.len()),
        edit::reads_wf(edit::operands(b), f.values.len()),
    ensures
        semantics::is_plain(a),
        semantics::is_plain(b),
        semantics::is_plain(semantics::shape(b)),
        semantics::shape(a) == semantics::shape(b),
        edit::operands(a).map_values(|v: ValueId| x[v]) == edit::operands(b).map_values(
            |v: ValueId| y[v],
        ),
{
    let p = edit::operands(a);
    let q = edit::operands(b);
    assert(p.len() == q.len());
    assert forall|k: int| 0 <= k < p.len() implies x[#[trigger] p[k]] == y[q[k]] by {
        assert(p[k].0 < f.values.len());
        assert(q[k].0 < f.values.len());
        assert(!gone.contains(p[k]));
        assert(tail_merge::same_value(f, p[k], q[k])) by {
            if let (
                KindView::Gep { base: s, indices: i },
                KindView::Gep { base: t, indices: j },
            ) = (a, b) {
                if k > 0 {
                    assert(tail_merge::same_value(f, i[k - 1], j[k - 1]));
                }
            }
        }
        if p[k] != q[k] {
            assert(f.has_value(p[k]));
            assert(f.has_value(q[k]));
            assert(f.value(p[k]).kind == f.value(q[k]).kind);
        }
    }
    assert(p.map_values(|v: ValueId| x[v]) =~= q.map_values(|v: ValueId| y[v]));
    if let (KindView::Gep { base: s, indices: i }, KindView::Gep { base: t, indices: j }) = (a, b) {
        assert(i.map_values(|v: ValueId| ValueId(0)) =~= j.map_values(|v: ValueId| ValueId(0)));
    }
}

/// The data and the memory at the end of a block that holds one of the updates.
proof fn lemma_update_run<D, M>(
    f: FuncView,
    g: FuncView,
    m: Meaning<D, M>,
    p: TailPair,
    r: ValueId,
    b: BlockId,
    at: int,
    u: ValueId,
    env: Map<ValueId, D>,
    data: Map<ValueId, D>,
    memory: M,
) -> (out: (Map<ValueId, D>, Map<ValueId, D>, M))
    requires
        f.wf(),
        has_room(f),
        stands(f, p, r),
        described(f, g, p),
        m.computes_apart_from_memory(),
        (b == p.lp && at == p.d.lhs_at && u == p.d.lhs) || (b == p.rp && at == p.d.rhs_at && u
            == r),
        semantics::alike(env, data, unread(f, p, r)),
    ensures
        ({
            let x = f.block(b).insts;
            let y = g.block(b).insts;
            let kind = x[at].kind;
            let (here, there, mem) = out;
            &&& f.has_inst(b, at)
            &&& semantics::is_plain(kind)
            &&& semantics::executed(m, x, x.len() as int, env, memory) == (
                here.insert(
                    u,
                    (m.apply)(
                        semantics::shape(kind),
                        edit::operands(kind).map_values(|v: ValueId| here[v]),
                        mem,
                    ).0,
                ),
                mem,
            )
            &&& semantics::executed(m, y, y.len() as int, data, memory) == (there, mem)
            &&& semantics::alike(here, there, unread(f, p, r))
            &&& here == semantics::executed(m, x, at, env, memory).0
        }),
{
    reveal(stands);
    reveal(described);
    lemma_unread(f, p, r);
    let x = f.block(b).insts;
    let y = g.block(b).insts;
    let kind = x[at].kind;
    let n = x.len() as int;
    assert(f.has_block(b));
    assert(f.inst(b, at) == x[at]);
    assert(semantics::is_plain(kind));
    assert(semantics::is_plain(semantics::shape(kind)));
    let (here, mem) = semantics::executed(m, x, at, env, memory);
    let (there, mem2) = semantics::executed(m, x, at, data, memory);
    semantics::lemma_executed_alike(m, x, at, env, data, memory, unread(f, p, r));
    assert forall|i: int| at + 1 <= i < n implies (#[trigger] x[i]).kind is Nop by {
        assert(f.block(b).insts[i].kind is Nop);
    }
    semantics::lemma_executed_to_the_end(m, x, at + 1, n, env, memory);
    assert forall|i: int| 0 <= i < at implies semantics::same_work(#[trigger] x[i], y[i]) by {
        assert(g.block(b).insts[i] == merged_inst(f, p, b, i));
    }
    semantics::lemma_same_execution(m, x, y, at, data, memory);
    assert forall|i: int| at <= i < n implies (#[trigger] y[i]).kind is Nop by {
        assert(g.block(b).insts[i] == merged_inst(f, p, b, i));
        if i > at {
            assert(x[i].kind is Nop);
        }
    }
    semantics::lemma_executed_to_the_end(m, y, at, n, data, memory);
    (here, there, mem)
}

/// What a merged phi takes.
proof fn lemma_merged_incoming(
    incomings: Seq<(BlockId, ValueId)>,
    p: TailPair,
    tail: BlockId,
    value: ValueId,
    pred: BlockId,
)
    requires
        pred != p.lp,
        pred != p.rp,
        tail != p.lp,
        tail != p.rp,
        forall|k: int| 0 <= k < incomings.len() ==> (#[trigger] incomings[k]).0 != tail,
    ensures
        util::incoming_from(
            structural::without(structural::without(incomings, p.lp), p.rp).push((tail, value)),
            pred,
        ) == if pred == tail {
            Some(value)
        } else {
            util::incoming_from(incomings, pred)
        },
{
    let one = structural::without(incomings, p.lp);
    let two = structural::without(one, p.rp);
    let last = seq![(tail, value)];
    meaning_laws::lemma_incoming_kept(incomings, structural::not_from(p.lp), pred);
    meaning_laws::lemma_incoming_kept(one, structural::not_from(p.rp), pred);
    assert(two.push((tail, value)) =~= two + last);
    meaning_laws::lemma_incoming_joined(two, last, pred);
    assert(last.drop_first() =~= Seq::<(BlockId, ValueId)>::empty());
    assert(util::incoming_from(last, pred) == if pred == tail {
        Some(value)
    } else {
        None::<ValueId>
    }) by {
        reveal_with_fuel(util::incoming_from, 2);
    }
    if pred == tail {
        threading_laws::lemma_incoming_entry(incomings, pred);
    }
}

/// An instruction of the header is not one of the updates, or no phi.
proof fn lemma_header_inst(f: FuncView, g: FuncView, p: TailPair, r: ValueId, i: int)
    requires
        f.wf(),
        has_room(f),
        stands(f, p, r),
        described(f, g, p),
        0 <= i < f.block(p.header).insts.len(),
        f.block(p.header).insts[i].kind is Phi,
        f.block(p.header).insts[i].result is Some,
    ensures
        g.block(p.header).insts[i] == tail_merge::merged_phi(
            f.block(p.header).insts[i],
            i as usize,
            p,
            f.next_block(),
            f.next_value(),
        ),
        edit::incomings_wf(
            tail_merge::entries(f.block(p.header).insts[i]),
            f.blocks.len(),
            f.values.len(),
        ),
        forall|k: int|
            0 <= k < tail_merge::entries(f.block(p.header).insts[i]).len() ==> (
            #[trigger] tail_merge::entries(f.block(p.header).insts[i])[k]).0 != f.next_block(),
        p.lp != f.next_block(),
        p.rp != f.next_block(),
{
    reveal(stands);
    reveal(described);
    query::lemma_inst_wf(f, p.header, i);
    assert(g.block(p.header).insts[i] == merged_inst(f, p, p.header, i));
    assert(!is_gone(p, p.header, i));
    let list = tail_merge::entries(f.block(p.header).insts[i]);
    assert forall|k: int| 0 <= k < list.len() implies (#[trigger] list[k]).0
        != f.next_block() by {
        assert(list[k].0.0 < f.blocks.len());
    }
}

/// Coming from another block, the runs take the same.
proof fn lemma_takes_alike_elsewhere<D>(
    f: FuncView,
    g: FuncView,
    p: TailPair,
    r: ValueId,
    pred: BlockId,
    b: BlockId,
    i: int,
    env: Map<ValueId, D>,
    data: Map<ValueId, D>,
)
    requires
        f.wf(),
        has_room(f),
        stands(f, p, r),
        described(f, g, p),
        semantics::alike(env, data, unread(f, p, r)),
        f.has_block(pred),
        pred != p.lp,
        pred != p.rp,
        f.has_block(b),
        0 <= i < f.block(b).insts.len(),
    ensures
        semantics::takes_alike(
            f.block(b).insts[i],
            g.block(b).insts[i],
            pred,
            pred,
            env,
            data,
        ),
{
    lemma_unread(f, p, r);
    let inst = f.block(b).insts[i];
    let gone = unread(f, p, r);
    if inst.kind is Phi && inst.result is Some {
        let incomings = tail_merge::entries(inst);
        query::lemma_inst_wf(f, b, i);
        threading_laws::lemma_incoming_entry(incomings, pred);
        if let Some(v) = util::incoming_from(incomings, pred) {
            let k = choose|k: int| 0 <= k < incomings.len() && #[trigger] incomings[k] == (pred, v);
            assert(incomings[k].1.0 < f.values.len());
            if b == p.header && i == p.d.phi_at {
                assert(f.inst(b, i) == inst);
                assert(v != p.d.lhs && v != r);
            } else {
                assert(semantics::ignores(inst.kind, gone));
                assert(edit::operands(inst.kind)[k] == v);
            }
            assert(!gone.contains(v));
            assert(env[v] == data[v]);
        }
        if b == p.header {
            lemma_header_inst(f, g, p, r, i);
            let at = i as usize;
            let value = if at == p.d.phi_at {
                f.next_value()
            } else {
                match query::sole_incoming(incomings, p.lp) {
                    Some(v) => v,
                    None => f.next_value(),
                }
            };
            assert(pred != f.next_block());
            lemma_merged_incoming(incomings, p, f.next_block(), value, pred);
        } else {
            reveal(described);
            reveal(stands);
            assert(g.block(b).insts[i] == merged_inst(f, p, b, i));
            assert(f.inst(b, i) == inst);
            assert(!is_gone(p, b, i));
        }
    } else {
        reveal(described);
        assert(g.block(b).insts[i] == merged_inst(f, p, b, i));
    }
}

/// Coming from one of the two blocks in `f`, and from the new block in `g`, the
/// header takes the same.
proof fn lemma_takes_alike_merged<D>(
    f: FuncView,
    g: FuncView,
    p: TailPair,
    r: ValueId,
    b: BlockId,
    u: ValueId,
    val: D,
    i: int,
    here: Map<ValueId, D>,
    there: Map<ValueId, D>,
)
    requires
        f.wf(),
        has_room(f),
        stands(f, p, r),
        described(f, g, p),
        semantics::alike(here, there, unread(f, p, r)),
        (b == p.lp && u == p.d.lhs) || (b == p.rp && u == r),
        0 <= i < f.block(p.header).insts.len(),
    ensures
        semantics::takes_alike(
            f.block(p.header).insts[i],
            g.block(p.header).insts[i],
            b,
            f.next_block(),
            here.insert(u, val),
            there.insert(f.next_value(), val),
        ),
{
    lemma_unread(f, p, r);
    let h = p.header;
    let inst = f.block(h).insts[i];
    let gone = unread(f, p, r);
    reveal(stands);
    assert(f.has_block(h));
    if inst.kind is Phi && inst.result is Some {
        let incomings = tail_merge::entries(inst);
        lemma_header_inst(f, g, p, r, i);
        let at = i as usize;
        let value = if at == p.d.phi_at {
            f.next_value()
        } else {
            match query::sole_incoming(incomings, p.lp) {
                Some(v) => v,
                None => f.next_value(),
            }
        };
        lemma_merged_incoming(incomings, p, f.next_block(), value, f.next_block());
        assert(f.inst(h, i) == inst);
        if i == p.d.phi_at {
            assert(util::incoming_from(incomings, b) == Some(u));
        } else {
            assert(query::sole_incoming(tail_merge::entries(f.block(h).insts[i]), p.lp) is Some);
            let v = util::incoming_from(incomings, b)->Some_0;
            assert(value == v);
            threading_laws::lemma_incoming_entry(incomings, b);
            let k = choose|k: int| 0 <= k < incomings.len() && #[trigger] incomings[k] == (b, v);
            assert(incomings[k].1.0 < f.values.len());
            assert(semantics::ignores(inst.kind, gone));
            assert(edit::operands(inst.kind)[k] == v);
            assert(!gone.contains(v));
            assert(here[v] == there[v]);
        }
    } else {
        reveal(described);
        assert(g.block(h).insts[i] == merged_inst(f, p, h, i));
    }
}

/// The states of the two runs agree but for the updates.
#[verifier::opaque]
pub open spec fn corresponds<D, M>(
    f: FuncView,
    m: Meaning<D, M>,
    gone: Set<ValueId>,
    t: State<D, M>,
    s: State<D, M>,
) -> bool {
    match (s, t) {
        (
            State::Running { block, env, memory },
            State::Running { block: other, env: data, memory: mem },
        ) => block == other && f.has_block(block) && memory == mem && semantics::alike(
            env,
            data,
            gone,
        ) && meaning_laws::constants_kept(f, m, env),
        (State::Running { .. }, _) => false,
        (_, State::Running { .. }) => false,
        _ => s == t,
    }
}

/// A step from a block that holds one of the updates.
proof fn lemma_step_update<D, M>(
    f: FuncView,
    g: FuncView,
    m: Meaning<D, M>,
    p: TailPair,
    r: ValueId,
    b: BlockId,
    at: int,
    u: ValueId,
    env: Map<ValueId, D>,
    data: Map<ValueId, D>,
    memory: M,
)
    requires
        verify::valid(f),
        has_room(f),
        stands(f, p, r),
        described(f, g, p),
        m.computes_apart_from_memory(),
        (b == p.lp && at == p.d.lhs_at && u == p.d.lhs) || (b == p.rp && at == p.d.rhs_at && u
            == r),
        semantics::alike(env, data, unread(f, p, r)),
        meaning_laws::constants_kept(f, m, env),
    ensures
        corresponds(
            f,
            m,
            unread(f, p, r),
            semantics::steps(g, m, State::Running { block: b, env: data, memory }, 2),
            semantics::step(f, m, State::Running { block: b, env, memory }),
        ),
{
    reveal(corresponds);
    let gone = unread(f, p, r);
    let t = State::Running { block: b, env: data, memory };
    let s = State::Running { block: b, env, memory };
    let tail = f.next_block();
    let merged = f.next_value();
    semantics::lemma_few_steps(g, m, t);
    let (here, there, mem) = lemma_update_run(
        f,
        g,
        m,
        p,
        r,
        b,
        at,
        u,
        env,
        data,
        memory,
    );
    lemma_unread(f, p, r);
    meaning_laws::lemma_results_are_computed(f);
    let x = f.block(b).insts;
    let kind = x[at].kind;
    let own = f.block(p.lp).insts[p.d.lhs_at as int].kind;
    assert(f.has_block(b) && f.has_block(p.header) && f.has_block(p.lp)) by {
        reveal(stands);
    }
    meaning_laws::lemma_execution_keeps_constants(f, m, b, at, env, memory);
    let val = (m.apply)(
        semantics::shape(kind),
        edit::operands(kind).map_values(|v: ValueId| here[v]),
        mem,
    ).0;
    // The new block computes the update.
    assert((m.apply)(
        semantics::shape(own),
        edit::operands(own).map_values(|v: ValueId| there[v]),
        mem,
    ) == (val, mem)) by {
        reveal(stands);
        query::lemma_inst_wf(f, p.lp, p.d.lhs_at as int);
        query::lemma_inst_wf(f, b, at);
        lemma_operands_in(own, f.blocks.len(), f.values.len());
        lemma_operands_in(kind, f.blocks.len(), f.values.len());
        assert(f.inst(p.lp, p.d.lhs_at as int).kind == own);
        assert(semantics::ignores(own, gone));
        if b == p.lp {
            semantics::lemma_same_data(own, here, there, gone);
            assert(semantics::is_plain(semantics::shape(own)));
        } else {
            assert(f.inst(p.rp, p.d.rhs_at as int).kind == kind);
            lemma_same_operation(f, m, own, kind, there, here, gone);
        }
    }
    assert(semantics::is_plain(own)) by {
        reveal(stands);
    }
    let list = g.block(tail).insts;
    assert(g.terminator(b) == Some(Terminator::Jump(tail)) && list == seq![
        InstView { result: Some(merged), kind: own },
    ] && g.terminator(tail) == Some(Terminator::Jump(p.header))) by {
        reveal(described);
        assert(f.has_block(b));
    }
    semantics::lemma_nothing_assigned(list, 1, b, there);
    assert(semantics::step(g, m, t) == (State::Running { block: tail, env: there, memory: mem }));
    assert(semantics::executed(m, list, 1, there, mem) == (there.insert(merged, val), mem)) by {
        reveal_with_fuel(semantics::executed, 2);
    }
    // Both runs arrive at the header.
    let hx = f.block(p.header).insts;
    let hy = g.block(p.header).insts;
    let n = hx.len() as int;
    assert(hy.len() == n) by {
        reveal(described);
        assert(f.has_block(p.header));
    }
    assert forall|i: int| 0 <= i < n implies semantics::takes_alike(
        #[trigger] hx[i],
        hy[i],
        b,
        tail,
        here.insert(u, val),
        there.insert(merged, val),
    ) by {
        lemma_takes_alike_merged(f, g, p, r, b, u, val, i, here, there);
    }
    let e = here.insert(u, val);
    let d = there.insert(merged, val);
    assert(semantics::alike(e, d, gone));
    semantics::lemma_assigned_pairwise(hx, hy, n, b, tail, e, d, gone);
    meaning_laws::lemma_execution_keeps_constants(f, m, b, x.len() as int, env, memory);
    meaning_laws::lemma_assignment_keeps_constants(f, m, p.header, n, b, e);
    assert(f.terminator(b) == Some(Terminator::Jump(p.header))) by {
        reveal(stands);
    }
}

/// A step from another block.
proof fn lemma_step_elsewhere<D, M>(
    f: FuncView,
    g: FuncView,
    m: Meaning<D, M>,
    p: TailPair,
    r: ValueId,
    b: BlockId,
    env: Map<ValueId, D>,
    data: Map<ValueId, D>,
    memory: M,
)
    requires
        verify::valid(f),
        has_room(f),
        stands(f, p, r),
        described(f, g, p),
        f.has_block(b),
        b != p.lp,
        b != p.rp,
        semantics::alike(env, data, unread(f, p, r)),
        meaning_laws::constants_kept(f, m, env),
    ensures
        corresponds(
            f,
            m,
            unread(f, p, r),
            semantics::step(g, m, State::Running { block: b, env: data, memory }),
            semantics::step(f, m, State::Running { block: b, env, memory }),
        ),
{
    reveal(corresponds);
    let gone = unread(f, p, r);
    let x = f.block(b).insts;
    let y = g.block(b).insts;
    let n = x.len() as int;
    lemma_unread(f, p, r);
    meaning_laws::lemma_results_are_computed(f);
    assert(y.len() == n && g.terminator(b) == f.terminator(b)) by {
        reveal(described);
        assert(f.has_block(b));
    }
    assert forall|i: int| 0 <= i < n implies semantics::same_work(#[trigger] x[i], y[i]) by {
        reveal(described);
        assert(g.block(b).insts[i] == merged_inst(f, p, b, i));
    }
    semantics::lemma_same_execution(m, x, y, n, data, memory);
    assert forall|i: int| 0 <= i < n implies (#[trigger] x[i]).kind is Phi || semantics::ignores(
        x[i].kind,
        gone,
    ) by {
        if b == p.header && i == p.d.phi_at {
            reveal(stands);
            assert(f.inst(b, i) == x[i]);
        }
    }
    semantics::lemma_executed_alike(m, x, n, env, data, memory, gone);
    meaning_laws::lemma_execution_keeps_constants(f, m, b, n, env, memory);
    let (here, mem) = semantics::executed(m, x, n, env, memory);
    let (there, _) = semantics::executed(m, x, n, data, memory);
    query::lemma_terminator_wf(f, b);
    let reads = edit::terminator_reads(f.terminator(b));
    match f.terminator(b) {
        Some(Terminator::Return(Some(v))) => {
            assert(reads[0] == v);
            assert(!gone.contains(v));
            assert(here[v] == there[v]);
        },
        Some(Terminator::Jump(t)) => {
            lemma_arrival_elsewhere(f, g, m, p, r, b, t, here, there);
        },
        Some(Terminator::Branch { cond, then_target, else_target }) => {
            assert(reads[0] == cond);
            assert(!gone.contains(cond));
            assert(here[cond] == there[cond]);
            lemma_arrival_elsewhere(f, g, m, p, r, b, then_target, here, there);
            lemma_arrival_elsewhere(f, g, m, p, r, b, else_target, here, there);
        },
        _ => {},
    }
}

proof fn lemma_arrival_elsewhere<D, M>(
    f: FuncView,
    g: FuncView,
    m: Meaning<D, M>,
    p: TailPair,
    r: ValueId,
    pred: BlockId,
    b: BlockId,
    env: Map<ValueId, D>,
    data: Map<ValueId, D>,
)
    requires
        verify::valid(f),
        has_room(f),
        stands(f, p, r),
        described(f, g, p),
        f.has_block(pred),
        pred != p.lp,
        pred != p.rp,
        f.has_block(b),
        semantics::alike(env, data, unread(f, p, r)),
        meaning_laws::constants_kept(f, m, env),
    ensures
        g.block(b).insts.len() == f.block(b).insts.len(),
        semantics::alike(
            semantics::phis_assigned(
                f.block(b).insts,
                f.block(b).insts.len() as int,
                pred,
                env,
            ),
            semantics::phis_assigned(
                g.block(b).insts,
                f.block(b).insts.len() as int,
                pred,
                data,
            ),
            unread(f, p, r),
        ),
        meaning_laws::constants_kept(
            f,
            m,
            semantics::phis_assigned(
                f.block(b).insts,
                f.block(b).insts.len() as int,
                pred,
                env,
            ),
        ),
{
    let x = f.block(b).insts;
    let y = g.block(b).insts;
    let n = x.len() as int;
    assert(y.len() == n) by {
        reveal(described);
        assert(f.has_block(b));
    }
    assert forall|i: int| 0 <= i < n implies semantics::takes_alike(
        #[trigger] x[i],
        y[i],
        pred,
        pred,
        env,
        data,
    ) by {
        lemma_takes_alike_elsewhere(f, g, p, r, pred, b, i, env, data);
    }
    semantics::lemma_assigned_pairwise(x, y, n, pred, pred, env, data, unread(f, p, r));
    meaning_laws::lemma_results_are_computed(f);
    meaning_laws::lemma_assignment_keeps_constants(f, m, b, n, pred, env);
}

proof fn lemma_step_merged<D, M>(
    f: FuncView,
    g: FuncView,
    m: Meaning<D, M>,
    p: TailPair,
    r: ValueId,
    t: State<D, M>,
    s: State<D, M>,
) -> (k: nat)
    requires
        verify::valid(f),
        has_room(f),
        stands(f, p, r),
        described(f, g, p),
        m.computes_apart_from_memory(),
        corresponds(f, m, unread(f, p, r), t, s),
    ensures
        k >= 1,
        corresponds(
            f,
            m,
            unread(f, p, r),
            semantics::steps(g, m, t, k),
            semantics::step(f, m, s),
        ),
{
    semantics::lemma_few_steps(g, m, t);
    match (s, t) {
        (
            State::Running { block, env, memory },
            State::Running { block: _, env: data, memory: _ },
        ) => {
            assert(t == (State::Running { block, env: data, memory }) && f.has_block(block)
                && semantics::alike(env, data, unread(f, p, r)) && meaning_laws::constants_kept(
                f,
                m,
                env,
            )) by {
                reveal(corresponds);
            }
            if block == p.lp {
                let at = p.d.lhs_at as int;
                lemma_step_update(f, g, m, p, r, block, at, p.d.lhs, env, data, memory);
                2
            } else if block == p.rp {
                let at = p.d.rhs_at as int;
                lemma_step_update(f, g, m, p, r, block, at, r, env, data, memory);
                2
            } else {
                lemma_step_elsewhere(f, g, m, p, r, block, env, data, memory);
                1
            }
        },
        _ => {
            reveal(corresponds);
            1
        },
    }
}

proof fn lemma_merged_follows<D, M>(
    f: FuncView,
    g: FuncView,
    m: Meaning<D, M>,
    p: TailPair,
    r: ValueId,
    rel: spec_fn(State<D, M>, State<D, M>) -> bool,
)
    requires
        verify::valid(f),
        has_room(f),
        stands(f, p, r),
        described(f, g, p),
        m.computes_apart_from_memory(),
        rel == (|t: State<D, M>, s: State<D, M>| corresponds(f, m, unread(f, p, r), t, s)),
    ensures
        semantics::follows(g, f, m, rel),
{
    assert forall|t: State<D, M>, s: State<D, M>| #[trigger] semantics::caught_up(
        g,
        f,
        m,
        rel,
        t,
        s,
    ) by {
        if rel(t, s) {
            let k = lemma_step_merged(f, g, m, p, r, t, s);
            assert(rel(semantics::steps(g, m, t, k), semantics::step(f, m, s)));
        }
    }
}

proof fn lemma_merged_start<D, M>(
    f: FuncView,
    g: FuncView,
    m: Meaning<D, M>,
    p: TailPair,
    r: ValueId,
    args: Map<ValueId, D>,
    memory: M,
)
    requires
        f.wf(),
        has_room(f),
        described(f, g, p),
    ensures
        corresponds(
            f,
            m,
            unread(f, p, r),
            semantics::start(g, m, args, memory),
            semantics::start(f, m, args, memory),
        ),
{
    reveal(corresponds);
    reveal(described);
    let x = semantics::initial(f, m, args);
    let y = semantics::initial(g, m, args);
    assert forall|v: ValueId| !unread(f, p, r).contains(v) implies #[trigger] x[v] == y[v] by {
        if f.has_value(v) {
            assert(g.values[v.0 as int] == f.values[v.0 as int]);
        }
    }
}

proof fn lemma_ends_alike<D, M>(f: FuncView, m: Meaning<D, M>, gone: Set<ValueId>)
    ensures
        semantics::end_alike(
            |t: State<D, M>, s: State<D, M>| corresponds(f, m, gone, t, s),
        ),
{
    reveal(corresponds);
}

/// Merging equal updates at the ends of two blocks keeps what every call
/// returns, wherever arithmetic keeps apart from memory.
pub proof fn tail_merging_keeps_the_meaning<D, M>(
    f: FuncView,
    m: Meaning<D, M>,
    args: Map<ValueId, D>,
    memory: M,
    out: State<D, M>,
)
    requires
        verify::valid(f),
        has_room(f),
        m.computes_apart_from_memory(),
    ensures
        semantics::yields(tail_merge::tail_step(f).0, m, args, memory, out) == semantics::yields(
            f,
            m,
            args,
            memory,
            out,
        ),
{
    if f.blocks.len() <= tail_merge::MAX_TAIL_MERGE_BLOCKS {
        if let Some(p) = tail_merge::first_pair(f, 0, 0) {
            let r = lemma_first_pair(f, 0, 0);
            let g = tail_merge::tails_merged(f, p);
            lemma_described(f, p, r);
            let rel = |t: State<D, M>, s: State<D, M>|
                corresponds(f, m, unread(f, p, r), t, s);
            lemma_merged_follows(f, g, m, p, r, rel);
            lemma_ends_alike(f, m, unread(f, p, r));
            lemma_merged_start(f, g, m, p, r, args, memory);
            semantics::followers_compute_the_same(g, f, m, rel, args, memory, out);
        }
    }
}

} // verus!
