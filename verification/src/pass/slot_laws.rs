//! What stands for the loads of a promoted slot.
use vstd::prelude::*;

use crate::cfg;
use crate::ir::{BlockId, FuncView, InstView, KindView, ValueId, ValueKindView};
use crate::pass::scalar_promote::{
    cand_index, edge_renamed, edges_renamed, insts_renamed, phi_entries, phi_extended, phi_for,
    PlacedPhi, Renaming, Tree,
};
use crate::util;

verus! {

// ---------------------------------------------------------------------------
// Inside a block
// ---------------------------------------------------------------------------

/// The instruction stores the value to the slot.
pub open spec fn stores(f: FuncView, b: BlockId, i: int, a: ValueId, v: ValueId) -> bool {
    f.inst(b, i).kind == (KindView::Store { ptr: a, value: v })
}

/// No instruction from place `i` up to place `n` stores to the slot.
pub open spec fn stays_unstored(f: FuncView, b: BlockId, a: ValueId, i: int, n: int) -> bool {
    forall|j: int|
        i <= j < n ==> !((#[trigger] f.inst(b, j)).kind matches KindView::Store { ptr, .. } && ptr
            == a)
}

/// No other of the first `n` instructions has the result.
pub open spec fn is_only(f: FuncView, b: BlockId, j: int, n: int, r: ValueId) -> bool {
    forall|i: int| 0 <= i < n && i != j ==> (#[trigger] f.inst(b, i)).result != Some(r)
}

/// The value, or what stands for it if it is a load that was replaced before.
pub open spec fn named(s: Renaming, v: ValueId) -> ValueId {
    util::resolve(s.map, v, s.f.values.len())
}

proof fn lemma_index(cands: Seq<ValueId>, k: int, i: int)
    requires
        0 <= i <= k < cands.len(),
        cands.no_duplicates(),
    ensures
        cand_index(cands, cands[k], i) == Some(k),
    decreases k - i,
{
    if i < k {
        lemma_index(cands, k, i + 1);
    }
}

proof fn lemma_index_found(cands: Seq<ValueId>, v: ValueId, i: int)
    requires
        0 <= i,
    ensures
        cand_index(cands, v, i) matches Some(k) ==> i <= k < cands.len() && cands[k] == v,
    decreases cands.len() - i,
{
    if i < cands.len() && cands[i] != v {
        lemma_index_found(cands, v, i + 1);
    }
}

/// Renaming changes the instructions of the block one by one, and nothing else of
/// the function.
proof fn lemma_so_far(t: Tree, s: Renaming, b: BlockId, n: int)
    requires
        s.f.has_block(b),
        0 <= n <= s.f.block(b).insts.len(),
        s.current.len() == t.cands.len(),
    ensures
        ({
            let d = insts_renamed(t, s, b, n);
            &&& d.f.values == s.f.values
            &&& d.f.blocks.len() == s.f.blocks.len()
            &&& d.f.entry == s.f.entry
            &&& d.current.len() == s.current.len()
            &&& d.f.block(b).insts.len() == s.f.block(b).insts.len()
            &&& forall|j: int|
                n <= j < s.f.block(b).insts.len() ==> #[trigger] d.f.inst(b, j) == s.f.inst(b, j)
            &&& forall|c: BlockId|
                s.f.has_block(c) && c != b ==> #[trigger] d.f.block(c) == s.f.block(c)
            &&& forall|c: BlockId|
                s.f.has_block(c) ==> #[trigger] d.f.terminator(c) == s.f.terminator(c)
        }),
    decreases n,
{
    if n > 0 {
        lemma_so_far(t, s, b, n - 1);
        let d = insts_renamed(t, s, b, n - 1);
        let e = insts_renamed(t, s, b, n);
        lemma_index_found(t.cands, accessed_slot(d.f.inst(b, n - 1)), 0);
        assert(forall|c: BlockId|
            s.f.has_block(c) ==> #[trigger] e.f.terminator(c) == d.f.terminator(c));
        assert(forall|c: BlockId|
            s.f.has_block(c) && c != b ==> #[trigger] e.f.block(c) == d.f.block(c));
        assert(forall|j: int|
            n <= j < s.f.block(b).insts.len() ==> #[trigger] e.f.inst(b, j) == d.f.inst(b, j));
    }
}

pub open spec fn accessed_slot(inst: InstView) -> ValueId {
    match inst.kind {
        KindView::Store { ptr, .. } => ptr,
        KindView::Load { ptr } => ptr,
        _ => ValueId(0),
    }
}

/// What the slot holds stays until the next store.
proof fn lemma_held(t: Tree, s: Renaming, b: BlockId, k: int, i: int, n: int)
    requires
        s.f.has_block(b),
        0 <= i <= n <= s.f.block(b).insts.len(),
        s.current.len() == t.cands.len(),
        t.cands.no_duplicates(),
        0 <= k < t.cands.len(),
        stays_unstored(s.f, b, t.cands[k], i, n),
    ensures
        insts_renamed(t, s, b, n).current[k] == insts_renamed(t, s, b, i).current[k],
    decreases n - i,
{
    if n > i {
        lemma_held(t, s, b, k, i, n - 1);
        lemma_so_far(t, s, b, n - 1);
        let inst = s.f.inst(b, n - 1);
        lemma_index_found(t.cands, accessed_slot(inst), 0);
    }
}

/// What stands for a replaced load stays.
proof fn lemma_mapped(t: Tree, s: Renaming, b: BlockId, j: int, n: int, r: ValueId)
    requires
        s.f.has_block(b),
        0 <= j < n <= s.f.block(b).insts.len(),
        s.current.len() == t.cands.len(),
        is_only(s.f, b, j, n, r),
    ensures
        insts_renamed(t, s, b, n).map.contains_key(r) == insts_renamed(
            t,
            s,
            b,
            j + 1,
        ).map.contains_key(r),
        insts_renamed(t, s, b, n).map[r] == insts_renamed(t, s, b, j + 1).map[r],
    decreases n - j,
{
    if n > j + 1 {
        lemma_mapped(t, s, b, j, n - 1, r);
        lemma_so_far(t, s, b, n - 1);
        assert(s.f.inst(b, n - 1).result != Some(r));
    }
}

/// An instruction that was renamed is not touched again.
proof fn lemma_emptied(t: Tree, s: Renaming, b: BlockId, j: int, n: int)
    requires
        s.f.has_block(b),
        0 <= j < n <= s.f.block(b).insts.len(),
        s.current.len() == t.cands.len(),
    ensures
        insts_renamed(t, s, b, n).f.inst(b, j) == insts_renamed(t, s, b, j + 1).f.inst(b, j),
    decreases n - j,
{
    if n > j + 1 {
        lemma_emptied(t, s, b, j, n - 1);
        lemma_so_far(t, s, b, n - 1);
    }
}

/// A load that follows a store in its block, with no store to the slot in between,
/// is replaced by the value that was stored; both are gone.
pub proof fn loads_give_what_was_stored(
    t: Tree,
    s: Renaming,
    b: BlockId,
    k: int,
    i: int,
    j: int,
    n: int,
    v: ValueId,
    r: ValueId,
)
    requires
        s.f.has_block(b),
        0 <= i < j < n <= s.f.block(b).insts.len(),
        s.current.len() == t.cands.len(),
        t.cands.no_duplicates(),
        0 <= k < t.cands.len(),
        stores(s.f, b, i, t.cands[k], v),
        stays_unstored(s.f, b, t.cands[k], i + 1, j),
        s.f.inst(b, j) == (InstView { result: Some(r), kind: KindView::Load { ptr: t.cands[k] } }),
        is_only(s.f, b, j, n, r),
    ensures
        insts_renamed(t, s, b, n).map.contains_key(r),
        insts_renamed(t, s, b, n).map[r] == named(insts_renamed(t, s, b, i), v),
        insts_renamed(t, s, b, n).f.inst(b, i).kind is Nop,
        insts_renamed(t, s, b, n).f.inst(b, j).kind is Nop,
{
    lemma_index(t.cands, k, 0);
    lemma_so_far(t, s, b, i);
    lemma_so_far(t, s, b, j);
    lemma_held(t, s, b, k, i + 1, j);
    lemma_mapped(t, s, b, j, n, r);
    lemma_emptied(t, s, b, i, n);
    lemma_emptied(t, s, b, j, n);
    assert(insts_renamed(t, s, b, i).f.inst(b, i) == s.f.inst(b, i));
    assert(insts_renamed(t, s, b, j).f.inst(b, j) == s.f.inst(b, j));
}

/// A load with no store to the slot before it in its block is replaced by what the
/// slot held on entry.
pub proof fn loads_give_what_the_slot_held(
    t: Tree,
    s: Renaming,
    b: BlockId,
    k: int,
    j: int,
    n: int,
    r: ValueId,
)
    requires
        s.f.has_block(b),
        0 <= j < n <= s.f.block(b).insts.len(),
        s.current.len() == t.cands.len(),
        t.cands.no_duplicates(),
        0 <= k < t.cands.len(),
        stays_unstored(s.f, b, t.cands[k], 0, j),
        s.f.inst(b, j) == (InstView { result: Some(r), kind: KindView::Load { ptr: t.cands[k] } }),
        is_only(s.f, b, j, n, r),
    ensures
        insts_renamed(t, s, b, n).map.contains_key(r),
        insts_renamed(t, s, b, n).map[r] == s.current[k],
        insts_renamed(t, s, b, n).f.inst(b, j).kind is Nop,
{
    lemma_index(t.cands, k, 0);
    lemma_so_far(t, s, b, j);
    lemma_held(t, s, b, k, 0, j);
    lemma_mapped(t, s, b, j, n, r);
    lemma_emptied(t, s, b, j, n);
    assert(insts_renamed(t, s, b, j).f.inst(b, j) == s.f.inst(b, j));
}

/// Behind a block a slot holds what the last store in it has stored, or what it
/// held on entry where nothing stores to it.
pub proof fn slots_hold_what_was_stored_last(
    t: Tree,
    s: Renaming,
    b: BlockId,
    k: int,
    i: int,
    n: int,
    v: ValueId,
)
    requires
        s.f.has_block(b),
        0 <= i <= n <= s.f.block(b).insts.len(),
        s.current.len() == t.cands.len(),
        t.cands.no_duplicates(),
        0 <= k < t.cands.len(),
    ensures
        i < n && stores(s.f, b, i, t.cands[k], v) && stays_unstored(s.f, b, t.cands[k], i + 1, n)
            ==> insts_renamed(t, s, b, n).current[k] == named(insts_renamed(t, s, b, i), v),
        stays_unstored(s.f, b, t.cands[k], 0, n) ==> insts_renamed(t, s, b, n).current[k]
            == s.current[k],
{
    lemma_index(t.cands, k, 0);
    if i < n && stores(s.f, b, i, t.cands[k], v) && stays_unstored(s.f, b, t.cands[k], i + 1, n) {
        lemma_so_far(t, s, b, i);
        assert(insts_renamed(t, s, b, i).f.inst(b, i) == s.f.inst(b, i));
        lemma_held(t, s, b, k, i + 1, n);
    }
    if stays_unstored(s.f, b, t.cands[k], 0, n) {
        lemma_held(t, s, b, k, 0, n);
    }
}

/// Nothing but accesses to the slots, and the slots, is changed.
pub proof fn other_instructions_stay(t: Tree, s: Renaming, b: BlockId, j: int, n: int)
    requires
        s.f.has_block(b),
        0 <= j < n <= s.f.block(b).insts.len(),
        s.current.len() == t.cands.len(),
        match s.f.inst(b, j).kind {
            KindView::Load { ptr } => !t.cands.contains(ptr),
            KindView::Store { ptr, .. } => !t.cands.contains(ptr),
            KindView::Alloca { .. } => s.f.inst(b, j).result matches Some(a) && !t.cands.contains(
                a,
            ),
            _ => true,
        },
    ensures
        insts_renamed(t, s, b, n).f.inst(b, j) == s.f.inst(b, j),
{
    lemma_so_far(t, s, b, j);
    lemma_emptied(t, s, b, j, n);
    let inst = s.f.inst(b, j);
    lemma_index_found(t.cands, accessed_slot(inst), 0);
    if let Some(a) = inst.result {
        lemma_index_found(t.cands, a, 0);
    }
}

// ---------------------------------------------------------------------------
// Along the edges
// ---------------------------------------------------------------------------

/// The value is a phi of the function.
pub open spec fn is_phi(f: FuncView, p: ValueId) -> bool {
    f.has_value(p) && match f.value(p).kind {
        ValueKindView::Inst(b, i) => {
            &&& f.has_inst(b, i as int)
            &&& f.inst(b, i as int).result == Some(p)
            &&& f.inst(b, i as int).kind is Phi
        },
        _ => false,
    }
}

/// What the phi takes from the block.
pub open spec fn taken(f: FuncView, p: ValueId, b: BlockId) -> Option<ValueId> {
    util::incoming_from(phi_entries(f, p), b)
}

proof fn lemma_pushed(list: Seq<(BlockId, ValueId)>, b: BlockId, v: ValueId, q: BlockId)
    ensures
        util::incoming_from(list.push((b, v)), q) == if util::incoming_from(list, q) is Some {
            util::incoming_from(list, q)
        } else if q == b {
            Some(v)
        } else {
            None
        },
    decreases list.len(),
{
    reveal_with_fuel(util::incoming_from, 2);
    let all = list.push((b, v));
    if list.len() > 0 {
        lemma_pushed(list.drop_first(), b, v, q);
        assert(all.drop_first() =~= list.drop_first().push((b, v)));
    } else {
        assert(all.drop_first() =~= Seq::empty());
    }
}

/// One phi takes the value from the block, if it has taken none from it before.
proof fn lemma_extended(f: FuncView, p: ValueId, b: BlockId, v: ValueId, q: ValueId, x: BlockId)
    requires
        is_phi(f, p),
        is_phi(f, q),
    ensures
        is_phi(phi_extended(f, p, b, v), q),
        taken(phi_extended(f, p, b, v), q, x) == if q == p && x == b && taken(f, q, x) is None {
            Some(v)
        } else {
            taken(f, q, x)
        },
        phi_extended(f, p, b, v).values == f.values,
{
    if let KindView::Phi { incomings } = util::def_kind(f, p)->0 {
        lemma_pushed(incomings, b, v, x);
    }
}

/// All placed phis are phis of the function.
pub open spec fn are_phis(f: FuncView, phis: Seq<PlacedPhi>) -> bool {
    forall|j: int| 0 <= j < phis.len() ==> is_phi(f, (#[trigger] phis[j]).phi)
}

proof fn lemma_phi_found(phis: Seq<PlacedPhi>, b: BlockId, k: int, i: int)
    requires
        0 <= i,
    ensures
        phi_for(phis, b, k, i) matches Some(p) ==> exists|j: int|
            i <= j < phis.len() && (#[trigger] phis[j]).phi == p && phis[j].block == b
                && phis[j].cand == k,
    decreases phis.len() - i,
{
    if i < phis.len() {
        if phis[i].block == b && phis[i].cand == k {
            assert(phis[i].phi == phis[i].phi);
        } else {
            lemma_phi_found(phis, b, k, i + 1);
        }
    }
}

/// No two placed phis are one.
pub open spec fn are_distinct(phis: Seq<PlacedPhi>) -> bool {
    forall|i: int, j: int|
        0 <= i < j < phis.len() ==> (#[trigger] phis[i]).phi != (#[trigger] phis[j]).phi
}

/// The phi of slot `k` in block `c` takes from block `b` what the slot holds there.
pub open spec fn takes_held(t: Tree, f: FuncView, s: Renaming, b: BlockId, c: BlockId, k: int) -> bool {
    phi_for(t.phis, c, k, 0) matches Some(p) ==> taken(f, p, b) == Some(named(s, s.current[k]))
}

/// The phi takes from other blocks what it took.
pub open spec fn takes_same(f: FuncView, g: FuncView, p: ValueId, x: BlockId) -> bool {
    taken(g, p, x) == taken(f, p, x)
}

proof fn lemma_edge(t: Tree, s: Renaming, b: BlockId, c: BlockId, n: int)
    requires
        are_phis(s.f, t.phis),
        are_distinct(t.phis),
        0 <= n <= t.cands.len(),
        forall|k: int|
            0 <= k < t.cands.len() ==> (#[trigger] phi_for(t.phis, c, k, 0) matches Some(p)
                ==> taken(s.f, p, b) is None || taken(s.f, p, b) == Some(named(s, s.current[k]))),
    ensures
        ({
            let g = edge_renamed(t, s, b, c, n);
            &&& g.values == s.f.values
            &&& are_phis(g, t.phis)
            &&& forall|k: int| 0 <= k < n ==> #[trigger] takes_held(t, g, s, b, c, k)
            &&& forall|j: int, x: BlockId|
                0 <= j < t.phis.len() && (x != b || t.phis[j].block != c || t.phis[j].cand >= n)
                    ==> #[trigger] takes_same(s.f, g, t.phis[j].phi, x)
        }),
    decreases n,
{
    if n > 0 {
        lemma_edge(t, s, b, c, n - 1);
        let g = edge_renamed(t, s, b, c, n - 1);
        let h = edge_renamed(t, s, b, c, n);
        lemma_phi_found(t.phis, c, n - 1, 0);
        if let Some(p) = phi_for(t.phis, c, n - 1, 0) {
            let v = named(s, s.current[n - 1]);
            let at = choose|j: int|
                0 <= j < t.phis.len() && (#[trigger] t.phis[j]).phi == p && t.phis[j].block == c
                    && t.phis[j].cand == n - 1;
            assert(h == phi_extended(g, p, b, v));
            assert(is_phi(g, t.phis[at].phi));
            assert forall|j: int| 0 <= j < t.phis.len() implies is_phi(
                h,
                (#[trigger] t.phis[j]).phi,
            ) by {
                lemma_extended(g, p, b, v, t.phis[j].phi, b);
            }
            assert(takes_same(s.f, g, t.phis[at].phi, b));
            lemma_extended(g, p, b, v, p, b);
            assert forall|k: int| 0 <= k < n implies #[trigger] takes_held(t, h, s, b, c, k) by {
                if k < n - 1 {
                    assert(takes_held(t, g, s, b, c, k));
                    lemma_phi_found(t.phis, c, k, 0);
                    if let Some(q) = phi_for(t.phis, c, k, 0) {
                        let j = choose|j: int|
                            0 <= j < t.phis.len() && (#[trigger] t.phis[j]).phi == q
                                && t.phis[j].block == c && t.phis[j].cand == k;
                        assert(is_phi(g, t.phis[j].phi));
                        lemma_extended(g, p, b, v, q, b);
                    }
                }
            }
            assert forall|j: int, x: BlockId|
                0 <= j < t.phis.len() && (x != b || t.phis[j].block != c || t.phis[j].cand
                    >= n) implies #[trigger] takes_same(s.f, h, t.phis[j].phi, x) by {
                assert(takes_same(s.f, g, t.phis[j].phi, x));
                assert(is_phi(g, t.phis[j].phi));
                lemma_extended(g, p, b, v, t.phis[j].phi, x);
                if x == b && t.phis[j].phi == p {
                    assert(j == at);
                }
            }
        } else {
            assert forall|k: int| 0 <= k < n implies #[trigger] takes_held(t, h, s, b, c, k) by {
                if k < n - 1 {
                    assert(takes_held(t, g, s, b, c, k));
                }
            }
        }
    }
}

/// Where control goes from a block to another, each phi that was placed there
/// takes from the block what its slot holds at the end of it. What it takes from
/// other blocks stays.
pub proof fn phis_take_what_the_slots_hold(t: Tree, s: Renaming, b: BlockId, n: int)
    requires
        are_phis(s.f, t.phis),
        are_distinct(t.phis),
        0 <= n <= cfg::succ_list(t.base.terminator(b)).len(),
        forall|j: int|
            0 <= j < t.phis.len() ==> taken(s.f, (#[trigger] t.phis[j]).phi, b) is None,
    ensures
        ({
            let d = edges_renamed(t, s, b, n);
            let list = cfg::succ_list(t.base.terminator(b));
            &&& d.current == s.current
            &&& d.map == s.map
            &&& d.f.values == s.f.values
            &&& are_phis(d.f, t.phis)
            &&& forall|i: int, k: int|
                0 <= i < n && 0 <= k < t.cands.len() ==> #[trigger] takes_held(
                    t,
                    d.f,
                    s,
                    b,
                    list[i],
                    k,
                )
            &&& forall|j: int, x: BlockId|
                0 <= j < t.phis.len() && (x != b || !list.take(n).contains(t.phis[j].block))
                    ==> #[trigger] takes_same(s.f, d.f, t.phis[j].phi, x)
        }),
    decreases n,
{
    if n > 0 {
        phis_take_what_the_slots_hold(t, s, b, n - 1);
        let list = cfg::succ_list(t.base.terminator(b));
        let c = list[n - 1];
        let before = edges_renamed(t, s, b, n - 1);
        let d = edges_renamed(t, s, b, n);
        assert forall|k: int| 0 <= k < t.cands.len() implies (#[trigger] phi_for(
            t.phis,
            c,
            k,
            0,
        ) matches Some(p) ==> taken(before.f, p, b) is None || taken(before.f, p, b) == Some(
            named(before, before.current[k]),
        )) by {
            lemma_phi_found(t.phis, c, k, 0);
            if let Some(p) = phi_for(t.phis, c, k, 0) {
                let j = choose|j: int|
                    0 <= j < t.phis.len() && (#[trigger] t.phis[j]).phi == p && t.phis[j].block
                        == c && t.phis[j].cand == k;
                let less = list.take(n - 1);
                if less.contains(c) {
                    let i = choose|i: int| 0 <= i < less.len() && less[i] == c;
                    assert(list[i] == c);
                    assert(takes_held(t, before.f, s, b, list[i], k));
                } else {
                    assert(takes_same(s.f, before.f, t.phis[j].phi, b));
                }
            }
        }
        lemma_edge(t, before, b, c, t.cands.len() as int);
        assert forall|i: int, k: int| 0 <= i < n && 0 <= k < t.cands.len() implies
            #[trigger] takes_held(t, d.f, s, b, list[i], k) by {
            assert(takes_held(t, d.f, before, b, c, k));
            if list[i] != c {
                assert(takes_held(t, before.f, s, b, list[i], k));
                lemma_phi_found(t.phis, list[i], k, 0);
                if let Some(p) = phi_for(t.phis, list[i], k, 0) {
                    let j = choose|j: int|
                        0 <= j < t.phis.len() && (#[trigger] t.phis[j]).phi == p
                            && t.phis[j].block == list[i] && t.phis[j].cand == k;
                    assert(takes_same(before.f, d.f, t.phis[j].phi, b));
                }
            }
        }
        assert forall|j: int, x: BlockId|
            0 <= j < t.phis.len() && (x != b || !list.take(n).contains(t.phis[j].block)) implies
            #[trigger] takes_same(s.f, d.f, t.phis[j].phi, x) by {
            if x == b {
                assert(list.take(n)[n - 1] == c);
                if list.take(n - 1).contains(t.phis[j].block) {
                    let less = list.take(n - 1);
                    let i = choose|i: int| 0 <= i < less.len() && less[i] == t.phis[j].block;
                    assert(list.take(n)[i] == t.phis[j].block);
                }
            }
            assert(takes_same(s.f, before.f, t.phis[j].phi, x));
            assert(takes_same(before.f, d.f, t.phis[j].phi, x));
        }
    }
}

} // verus!
