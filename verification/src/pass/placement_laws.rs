//! Where the phis of a promoted slot stand.
use vstd::prelude::*;

use crate::cfg;
use crate::ir::{BlockId, FuncView, ValueId};
use crate::loops;
use crate::pass::scalar_promote::{
    frontier, has_store, in_frontier, newly, phi_blocks, placed_from, storing_below,
};
use crate::pass::scalar_promote;
use crate::pass::unroll_laws;
use crate::ssa;

verus! {

// ---------------------------------------------------------------------------
// Counting blocks
// ---------------------------------------------------------------------------

/// How many of the first `n` blocks the predicate holds of.
pub open spec fn count(pred: spec_fn(BlockId) -> bool, n: int) -> nat
    decreases n,
{
    if n <= 0 {
        0
    } else {
        count(pred, n - 1) + (if pred(BlockId((n - 1) as usize)) {
            1nat
        } else {
            0nat
        })
    }
}

/// A predicate that holds of fewer blocks counts fewer.
proof fn lemma_count(p: spec_fn(BlockId) -> bool, q: spec_fn(BlockId) -> bool, n: int, x: BlockId)
    requires
        forall|b: BlockId| b.0 < n && #[trigger] p(b) ==> q(b),
        n <= usize::MAX,
    ensures
        count(p, n) <= count(q, n),
        x.0 < n && q(x) && !p(x) ==> count(p, n) < count(q, n),
    decreases n,
{
    if n > 0 {
        lemma_count(p, q, n - 1, x);
        let last = BlockId((n - 1) as usize);
        assert(p(last) ==> q(last));
    }
}

proof fn lemma_count_most(p: spec_fn(BlockId) -> bool, n: int)
    requires
        0 <= n,
    ensures
        count(p, n) <= n,
    decreases n,
{
    if n > 0 {
        lemma_count_most(p, n - 1);
    }
}

/// The block is not in the list.
pub open spec fn is_out(list: Seq<BlockId>) -> spec_fn(BlockId) -> bool {
    |b: BlockId| !list.contains(b)
}

// ---------------------------------------------------------------------------
// Closure under dominance frontiers
// ---------------------------------------------------------------------------

/// The list holds the dominance frontier of the block.
pub open spec fn holds_frontier(f: FuncView, list: Seq<BlockId>, d: BlockId) -> bool {
    forall|y: BlockId| f.has_block(y) && #[trigger] in_frontier(f, d, y) ==> list.contains(y)
}

proof fn lemma_newly(n: nat, list: Seq<BlockId>, placed: Seq<BlockId>, k: int)
    requires
        0 <= k <= list.len(),
        list.no_duplicates(),
        forall|i: int| 0 <= i < list.len() ==> (#[trigger] list[i]).0 < n,
        n <= usize::MAX,
    ensures
        ({
            let more = newly(list, placed, k);
            &&& forall|i: int|
                0 <= i < k ==> placed.contains(#[trigger] list[i]) || more.contains(list[i])
            &&& forall|y: BlockId| #[trigger]
                more.contains(y) ==> !placed.contains(y) && list.take(k).contains(y)
            &&& more.no_duplicates()
            &&& count(is_out(placed + more), n as int) + more.len() <= count(
                is_out(placed),
                n as int,
            )
        }),
    decreases k,
{
    if k <= 0 {
        assert(placed + newly(list, placed, k) =~= placed);
    } else {
        lemma_newly(n, list, placed, k - 1);
        let before = newly(list, placed, k - 1);
        let more = newly(list, placed, k);
        let last = list[k - 1];
        assert forall|y: BlockId| list.take(k - 1).contains(y) implies #[trigger] list.take(
            k,
        ).contains(y) by {
            let less = list.take(k - 1);
            let i = choose|i: int| 0 <= i < less.len() && less[i] == y;
            assert(list.take(k)[i] == y);
        }
        if !placed.contains(last) {
            assert(list.take(k)[k - 1] == last);
            assert(more[before.len() as int] == last);
            assert forall|y: BlockId| before.contains(y) implies #[trigger] more.contains(y) by {
                let i = choose|i: int| 0 <= i < before.len() && before[i] == y;
                assert(more[i] == y);
            }
            assert(!before.contains(last)) by {
                if before.contains(last) {
                    let less = list.take(k - 1);
                    assert(less.contains(last));
                    let i = choose|i: int| 0 <= i < less.len() && less[i] == last;
                    assert(list[i] == list[k - 1]);
                }
            }
            let fewer = placed + before;
            let all = placed + more;
            assert(all =~= fewer.push(last));
            assert(!fewer.contains(last)) by {
                if fewer.contains(last) {
                    let i = choose|i: int| 0 <= i < fewer.len() && fewer[i] == last;
                    if i < placed.len() {
                        assert(placed[i] == last);
                    } else {
                        assert(before[i - placed.len()] == last);
                    }
                }
            }
            assert forall|b: BlockId| b.0 < n && #[trigger] is_out(all)(b) implies is_out(fewer)(
                b,
            ) by {
                if fewer.contains(b) {
                    let i = choose|i: int| 0 <= i < fewer.len() && fewer[i] == b;
                    assert(all[i] == b);
                }
            }
            assert(all[fewer.len() as int] == last);
            lemma_count(is_out(all), is_out(fewer), n as int, last);
            assert forall|y: BlockId| #[trigger] more.contains(y) implies !placed.contains(y)
                && list.take(k).contains(y) by {
                let i = choose|i: int| 0 <= i < more.len() && more[i] == y;
                if i < before.len() {
                    assert(before[i] == y);
                    assert(before.contains(y));
                }
            }
        }
    }
}

proof fn lemma_frontier(f: FuncView, d: BlockId)
    requires
        f.blocks.len() <= usize::MAX,
    ensures
        frontier(f, d).no_duplicates(),
        forall|i: int| 0 <= i < frontier(f, d).len() ==> f.has_block(#[trigger] frontier(f, d)[i]),
        forall|y: BlockId|
            f.has_block(y) && #[trigger] in_frontier(f, d, y) ==> frontier(f, d).contains(y),
{
    let ids = loops::all_ids(f.blocks.len());
    assert(ids.no_duplicates());
    unroll_laws::lemma_filter_distinct(ids, scalar_promote::frontier_of(f, d));
    loops::lemma_filtered(ids, scalar_promote::frontier_of(f, d));
    assert forall|y: BlockId| f.has_block(y) && #[trigger] in_frontier(f, d, y) implies frontier(
        f,
        d,
    ).contains(y) by {
        assert(ids[y.0 as int] == y);
        assert(scalar_promote::frontier_of(f, d)(y));
    }
}

proof fn lemma_placed(f: FuncView, work: Seq<BlockId>, placed: Seq<BlockId>, fuel: nat)
    requires
        f.blocks.len() <= usize::MAX,
        fuel >= work.len() + count(is_out(placed), f.blocks.len() as int),
        forall|d: BlockId| #[trigger]
            placed.contains(d) ==> work.contains(d) || holds_frontier(f, placed, d),
        placed.no_duplicates(),
        forall|d: BlockId| #[trigger] placed.contains(d) ==> f.has_block(d),
    ensures
        ({
            let r = placed_from(f, work, placed, fuel);
            &&& r.no_duplicates()
            &&& forall|d: BlockId| #[trigger] r.contains(d) ==> f.has_block(d)
            &&& forall|d: BlockId| placed.contains(d) ==> #[trigger] r.contains(d)
            &&& forall|d: BlockId| #[trigger] r.contains(d) ==> holds_frontier(f, r, d)
            &&& forall|d: BlockId| #[trigger] work.contains(d) ==> holds_frontier(f, r, d)
        }),
    decreases fuel,
{
    if fuel > 0 && work.len() > 0 {
        let list = frontier(f, work[0]);
        let more = newly(list, placed, list.len() as int);
        lemma_frontier(f, work[0]);
        lemma_newly(f.blocks.len(), list, placed, list.len() as int);
        let next = work.skip(1) + more;
        let all = placed + more;
        assert forall|d: BlockId| #[trigger] more.contains(d) implies next.contains(d)
            && all.contains(d) by {
            let i = choose|i: int| 0 <= i < more.len() && more[i] == d;
            assert(next[work.len() - 1 + i] == d);
            assert(all[placed.len() + i] == d);
        }
        assert forall|d: BlockId| placed.contains(d) implies #[trigger] all.contains(d) by {
            let i = choose|i: int| 0 <= i < placed.len() && placed[i] == d;
            assert(all[i] == d);
        }
        assert(holds_frontier(f, all, work[0])) by {
            assert forall|y: BlockId|
                f.has_block(y) && #[trigger] in_frontier(f, work[0], y) implies all.contains(y) by {
                let i = choose|i: int| 0 <= i < list.len() && list[i] == y;
                assert(placed.contains(list[i]) || more.contains(list[i]));
            }
        }
        assert forall|d: BlockId| work.contains(d) && d != work[0] implies #[trigger] next.contains(
            d,
        ) by {
            let i = choose|i: int| 0 <= i < work.len() && work[i] == d;
            assert(next[i - 1] == d);
        }
        assert forall|d: BlockId| #[trigger] all.contains(d) implies next.contains(d)
            || holds_frontier(f, all, d) by {
            let i = choose|i: int| 0 <= i < all.len() && all[i] == d;
            if i < placed.len() {
                assert(placed[i] == d);
                assert(placed.contains(d));
            } else {
                assert(more[i - placed.len()] == d);
                assert(more.contains(d));
            }
        }
        assert(all.no_duplicates()) by {
            assert forall|i: int, j: int| 0 <= i < j < all.len() implies all[i] != all[j] by {
                if i < placed.len() && j >= placed.len() {
                    assert(placed.contains(placed[i]));
                    assert(more.contains(more[j - placed.len()]));
                }
            }
        }
        assert forall|d: BlockId| #[trigger] all.contains(d) implies f.has_block(d) by {
            let i = choose|i: int| 0 <= i < all.len() && all[i] == d;
            if i < placed.len() {
                assert(placed.contains(placed[i]));
            } else {
                assert(more.contains(more[i - placed.len()]));
                let whole = list.take(list.len() as int);
                let j = choose|j: int| 0 <= j < whole.len() && whole[j] == d;
                assert(list[j] == d);
            }
        }
        lemma_placed(f, next, all, (fuel - 1) as nat);
        let r = placed_from(f, work, placed, fuel);
        assert forall|d: BlockId| #[trigger] work.contains(d) implies holds_frontier(f, r, d) by {
            if d == work[0] {
                assert(forall|y: BlockId| #[trigger] all.contains(y) ==> r.contains(y));
            } else {
                assert(next.contains(d));
            }
        }
    }
}

proof fn lemma_storing(f: FuncView, a: ValueId, n: int)
    requires
        0 <= n <= f.blocks.len() <= usize::MAX,
    ensures
        storing_below(f, a, n).len() <= n,
        forall|b: BlockId|
            b.0 < n && has_store(f.block(b).insts, a) ==> #[trigger] storing_below(
                f,
                a,
                n,
            ).contains(b),
    decreases n,
{
    if n > 0 {
        lemma_storing(f, a, n - 1);
        let before = storing_below(f, a, n - 1);
        let all = storing_below(f, a, n);
        assert forall|b: BlockId| b.0 < n && has_store(f.block(b).insts, a) implies
            #[trigger] all.contains(b) by {
            if b.0 == n - 1 {
                assert(all[before.len() as int] == b);
            } else {
                assert(before.contains(b));
                let i = choose|i: int| 0 <= i < before.len() && before[i] == b;
                assert(all[i] == b);
            }
        }
    }
}

/// Wherever the dominance of a block ends that stores to the slot, or that has a
/// phi for it, there is a phi for it.
pub proof fn phis_stand_where_stores_meet(f: FuncView, a: ValueId, d: BlockId, y: BlockId)
    requires
        f.blocks.len() <= usize::MAX,
        f.has_block(d),
        f.has_block(y),
        has_store(f.block(d).insts, a) || phi_blocks(f, a).contains(d),
        in_frontier(f, d, y),
    ensures
        phi_blocks(f, a).contains(y),
{
    let n = f.blocks.len() as int;
    lemma_storing(f, a, n);
    let work = storing_below(f, a, n);
    let none = Seq::<BlockId>::empty();
    lemma_count_most(is_out(none), n);
    lemma_placed(f, work, none, 2 * f.blocks.len());
    if has_store(f.block(d).insts, a) {
        assert(work.contains(d));
    }
}

// ---------------------------------------------------------------------------
// The dominator tree
// ---------------------------------------------------------------------------

proof fn lemma_comparable_on(f: FuncView, a: BlockId, b: BlockId, c: BlockId, path: Seq<BlockId>)
    requires
        f.wf(),
        cfg::walk(cfg::succ_lists(f), path, f.entry, c, None),
        cfg::dominates(f, a, c),
        cfg::dominates(f, b, c),
    ensures
        cfg::dominates(f, a, b) || cfg::dominates(f, b, a),
    decreases path.len(),
{
    if a != c && b != c {
        if path.len() == 1 {
            ssa::lemma_entry_dominator(f, a);
        }
        let i = path.len() - 2;
        let q = path[i];
        ssa::lemma_prefix(f, path, c, i);
        assert(cfg::walk(cfg::succ_lists(f), path.take(i + 1), f.entry, q, None));
        assert(cfg::reachable(f, q));
        assert(path[i + 1] == c);
        assert(q.0 < cfg::succ_lists(f).len());
        assert(cfg::succ_lists(f)[q.0 as int].contains(c));
        assert(cfg::edge(f, q, c));
        ssa::lemma_dominates_pred(f, a, q, c);
        ssa::lemma_dominates_pred(f, b, q, c);
        lemma_comparable_on(f, a, b, q, path.take(i + 1));
    }
}

/// Of two blocks that dominate a third, one dominates the other.
pub proof fn dominators_are_ordered(f: FuncView, a: BlockId, b: BlockId, c: BlockId)
    requires
        f.wf(),
        cfg::dominates(f, a, c),
        cfg::dominates(f, b, c),
    ensures
        cfg::dominates(f, a, b) || cfg::dominates(f, b, a),
{
    let path = cfg::path_of(cfg::succ_lists(f), f.entry, c, None);
    lemma_comparable_on(f, a, b, c, path);
}

} // verus!
