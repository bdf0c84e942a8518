//! The control-flow graph of a function: successors, predecessors,
//! reachability and dominance.
use vstd::prelude::*;

use crate::edit;
use crate::ir::{BlockId, FuncView, Function, Terminator};

verus! {

// ---------------------------------------------------------------------------
// Mathematical model
// ---------------------------------------------------------------------------

/// The distinct successors of a terminator.
pub open spec fn succ_list(terminator: Option<Terminator>) -> Seq<BlockId> {
    match terminator {
        Some(Terminator::Jump(target)) => seq![target],
        Some(Terminator::Branch { cond: _, then_target, else_target }) => if then_target
            == else_target {
            seq![then_target]
        } else {
            seq![then_target, else_target]
        },
        _ => Seq::empty(),
    }
}

/// Control can pass from the end of `a` to the start of `b`.
pub open spec fn edge(f: FuncView, a: BlockId, b: BlockId) -> bool {
    succ_list(f.terminator(a)).contains(b)
}

/// The predecessors of `b` among the first `n` blocks, in ascending order.
pub open spec fn preds_below(f: FuncView, b: BlockId, n: int) -> Seq<BlockId>
    decreases n,
{
    if n <= 0 {
        Seq::empty()
    } else {
        let before = preds_below(f, b, n - 1);
        let last = BlockId((n - 1) as usize);
        if edge(f, last, b) {
            before.push(last)
        } else {
            before
        }
    }
}

/// The predecessors of `b`, in ascending order.
pub open spec fn preds(f: FuncView, b: BlockId) -> Seq<BlockId> {
    preds_below(f, b, f.blocks.len() as int)
}

pub open spec fn succ_lists(f: FuncView) -> Seq<Seq<BlockId>> {
    Seq::new(f.blocks.len(), |b: int| succ_list(f.blocks[b].terminator))
}

pub open spec fn pred_lists(f: FuncView) -> Seq<Seq<BlockId>> {
    Seq::new(f.blocks.len(), |b: int| preds(f, BlockId(b as usize)))
}

/// `path` follows the arcs of `graph` from `from` to `to` and does not visit
/// `avoid`.
pub open spec fn walk(
    graph: Seq<Seq<BlockId>>,
    path: Seq<BlockId>,
    from: BlockId,
    to: BlockId,
    avoid: Option<BlockId>,
) -> bool {
    &&& path.len() >= 1
    &&& path[0] == from
    &&& path.last() == to
    &&& forall|k: int|
        0 <= k < path.len() ==> (#[trigger] path[k]).0 < graph.len() && Some(path[k]) != avoid
    &&& forall|k: int|
        0 <= k < path.len() - 1 ==> graph[(#[trigger] path[k]).0 as int].contains(path[k + 1])
}

pub open spec fn reaches(
    graph: Seq<Seq<BlockId>>,
    from: BlockId,
    to: BlockId,
    avoid: Option<BlockId>,
) -> bool {
    exists|path: Seq<BlockId>| walk(graph, path, from, to, avoid)
}

/// Some path leads from the entry to `b`.
pub open spec fn reachable(f: FuncView, b: BlockId) -> bool {
    reaches(succ_lists(f), f.entry, b, None)
}

/// `b` is reachable, and every path from the entry to `b` visits `a`.
pub open spec fn dominates(f: FuncView, a: BlockId, b: BlockId) -> bool {
    &&& reachable(f, b)
    &&& forall|path: Seq<BlockId>| #[trigger]
        walk(succ_lists(f), path, f.entry, b, None) ==> path.contains(a)
}

pub open spec fn graph_wf(graph: Seq<Seq<BlockId>>) -> bool {
    forall|a: int, k: int|
        0 <= a < graph.len() && 0 <= k < graph[a].len() ==> (#[trigger] graph[a][k]).0
            < graph.len()
}

pub open spec fn lists_view(lists: Seq<Vec<BlockId>>) -> Seq<Seq<BlockId>> {
    lists.map_values(|l: Vec<BlockId>| l@)
}

/// The number of unset marks.
pub open spec fn unmarked(marks: Seq<bool>) -> nat
    decreases marks.len(),
{
    if marks.len() == 0 {
        0
    } else {
        unmarked(marks.drop_last()) + (if marks.last() {
            0nat
        } else {
            1nat
        })
    }
}

pub proof fn lemma_mark(marks: Seq<bool>, i: int)
    requires
        0 <= i < marks.len(),
        !marks[i],
    ensures
        unmarked(marks.update(i, true)) + 1 == unmarked(marks),
    decreases marks.len(),
{
    let marked = marks.update(i, true);
    if i == marks.len() - 1 {
        assert(marked.drop_last() =~= marks.drop_last());
    } else {
        assert(marked.drop_last() =~= marks.drop_last().update(i, true));
        lemma_mark(marks.drop_last(), i);
    }
}

/// `preds` lists exactly the blocks with an edge to `b`.
pub proof fn lemma_preds_below(f: FuncView, b: BlockId, n: int, a: BlockId)
    requires
        0 <= n <= f.blocks.len(),
        f.blocks.len() <= usize::MAX,
    ensures
        preds_below(f, b, n).contains(a) <==> a.0 < n && edge(f, a, b),
    decreases n,
{
    if n > 0 {
        lemma_preds_below(f, b, n - 1, a);
        let before = preds_below(f, b, n - 1);
        let last = BlockId((n - 1) as usize);
        if edge(f, last, b) {
            assert(before.push(last)[before.len() as int] == last);
            if before.contains(a) {
                let k = choose|k: int| 0 <= k < before.len() && before[k] == a;
                assert(before.push(last)[k] == a);
            }
        }
    }
}

/// Predecessor lists are strictly ascending.
pub proof fn lemma_preds_below_sorted(f: FuncView, b: BlockId, n: int)
    requires
        0 <= n <= f.blocks.len(),
        f.blocks.len() <= usize::MAX,
    ensures
        forall|i: int|
            0 <= i < preds_below(f, b, n).len() ==> (#[trigger] preds_below(f, b, n)[i]).0 < n,
        forall|i: int, j: int|
            0 <= i < j < preds_below(f, b, n).len() ==> (#[trigger] preds_below(f, b, n)[i]).0 < (
            #[trigger] preds_below(f, b, n)[j]).0,
    decreases n,
{
    if n > 0 {
        lemma_preds_below_sorted(f, b, n - 1);
        let before = preds_below(f, b, n - 1);
        let all = preds_below(f, b, n);
        assert forall|i: int| 0 <= i < all.len() implies (#[trigger] all[i]).0 < n by {
            if i < before.len() {
                assert(all[i] == before[i]);
            }
        }
        assert forall|i: int, j: int| 0 <= i < j < all.len() implies (#[trigger] all[i]).0 < (
        #[trigger] all[j]).0 by {
            assert(all[i] == before[i]);
            if j < before.len() {
                assert(all[j] == before[j]);
            }
        }
    }
}

/// A walk that shows that `to` can be reached.
pub proof fn path_of(
    graph: Seq<Seq<BlockId>>,
    from: BlockId,
    to: BlockId,
    avoid: Option<BlockId>,
) -> (path: Seq<BlockId>)
    requires
        reaches(graph, from, to, avoid),
    ensures
        walk(graph, path, from, to, avoid),
{
    choose|path: Seq<BlockId>| walk(graph, path, from, to, avoid)
}

/// Extending a walk by one arc.
proof fn lemma_walk_push(
    graph: Seq<Seq<BlockId>>,
    path: Seq<BlockId>,
    from: BlockId,
    to: BlockId,
    next: BlockId,
    avoid: Option<BlockId>,
)
    requires
        walk(graph, path, from, to, avoid),
        to.0 < graph.len(),
        graph[to.0 as int].contains(next),
        next.0 < graph.len(),
        Some(next) != avoid,
    ensures
        walk(graph, path.push(next), from, next, avoid),
{
    let longer = path.push(next);
    assert forall|k: int| 0 <= k < longer.len() - 1 implies graph[(
    #[trigger] longer[k]).0 as int].contains(longer[k + 1]) by {
        if k < path.len() - 1 {
            assert(graph[path[k].0 as int].contains(path[k + 1]));
        } else {
            assert(longer[k] == to);
        }
    }
}

/// A marking that holds the start and is closed under arcs holds every node
/// of a walk.
proof fn lemma_closed_marks(
    graph: Seq<Seq<BlockId>>,
    marks: Seq<bool>,
    path: Seq<BlockId>,
    from: BlockId,
    to: BlockId,
    avoid: Option<BlockId>,
    k: int,
)
    requires
        walk(graph, path, from, to, avoid),
        marks.len() == graph.len(),
        marks[from.0 as int],
        0 <= k < path.len(),
        forall|a: int, j: int|
            0 <= a < graph.len() && marks[a] && 0 <= j < graph[a].len() && Some(
                #[trigger] graph[a][j],
            ) != avoid ==> marks[graph[a][j].0 as int],
    ensures
        marks[path[k].0 as int],
    decreases k,
{
    if k > 0 {
        lemma_closed_marks(graph, marks, path, from, to, avoid, k - 1);
        let a = path[k - 1].0 as int;
        assert(graph[a].contains(path[k - 1 + 1]));
        let j = choose|j: int| 0 <= j < graph[a].len() && graph[a][j] == path[k];
        assert(graph[a][j] == path[k]);
    }
}

// ---------------------------------------------------------------------------
// Executable graph search
// ---------------------------------------------------------------------------

/// Marks the nodes that can be reached from `start` without visiting `avoid`.
pub fn reach_from(graph: &Vec<Vec<BlockId>>, start: BlockId, avoid: Option<BlockId>) -> (r: Vec<
    bool,
>)
    requires
        graph_wf(lists_view(graph@)),
        start.0 < graph.len(),
    ensures
        r.len() == graph.len(),
        forall|b: int|
            0 <= b < r.len() ==> (#[trigger] r@[b] <==> reaches(
                lists_view(graph@),
                start,
                BlockId(b as usize),
                avoid,
            )),
{
    let ghost g = lists_view(graph@);
    let n = graph.len();
    let mut marks: Vec<bool> = Vec::new();
    for i in 0..n
        invariant
            marks.len() == i,
            forall|j: int| 0 <= j < i ==> !#[trigger] marks@[j],
    {
        marks.push(false);
    }
    if let Some(blocked) = avoid {
        if blocked == start {
            assert forall|b: int| 0 <= b < n implies (#[trigger] marks@[b] <==> reaches(
                g,
                start,
                BlockId(b as usize),
                avoid,
            )) by {
                if reaches(g, start, BlockId(b as usize), avoid) {
                    let path = path_of(g, start, BlockId(b as usize), avoid);
                    assert(Some(path[0]) != avoid);
                }
            }
            return marks;
        }
    }
    let mut stack: Vec<BlockId> = Vec::new();
    proof {
        assert(walk(g, seq![start], start, start, avoid));
        lemma_mark(marks@, start.0 as int);
    }
    marks[start.0] = true;
    stack.push(start);
    while stack.len() > 0
        invariant
            g == lists_view(graph@),
            graph_wf(g),
            n == graph.len(),
            marks.len() == n,
            start.0 < n,
            marks@[start.0 as int],
            forall|b: int|
                0 <= b < n && #[trigger] marks@[b] ==> reaches(
                    g,
                    start,
                    BlockId(b as usize),
                    avoid,
                ),
            forall|s: int|
                0 <= s < stack.len() ==> (#[trigger] stack@[s]).0 < n && marks@[stack@[s].0 as int],
            forall|a: int, j: int|
                0 <= a < n && marks@[a] && !stack@.contains(BlockId(a as usize)) && 0 <= j
                    < g[a].len() && Some(#[trigger] g[a][j]) != avoid ==> marks@[g[a][j].0 as int],
        decreases unmarked(marks@), stack.len(),
    {
        let ghost stack0 = stack@;
        let ghost marks0 = marks@;
        let block = stack.pop().unwrap();
        assert(stack0[stack0.len() - 1] == block);
        let ghost base = stack@;
        let m = graph[block.0].len();
        assert(g[block.0 as int] == graph@[block.0 as int]@);
        for k in 0..m
            invariant
                g == lists_view(graph@),
                graph_wf(g),
                n == graph.len(),
                marks.len() == n,
                start.0 < n,
                block.0 < n,
                m == graph@[block.0 as int].len(),
                g[block.0 as int] == graph@[block.0 as int]@,
                marks@[start.0 as int],
                marks@[block.0 as int],
                stack0 == base.push(block),
                marks0.len() == n,
                stack.len() >= base.len(),
                forall|s: int| 0 <= s < base.len() ==> #[trigger] stack@[s] == base[s],
                forall|b: int|
                    0 <= b < n && #[trigger] marks@[b] ==> reaches(
                        g,
                        start,
                        BlockId(b as usize),
                        avoid,
                    ),
                forall|b: int| 0 <= b < n && marks0[b] ==> #[trigger] marks@[b],
                forall|b: int|
                    0 <= b < n && #[trigger] marks@[b] && !marks0[b] ==> stack@.contains(
                        BlockId(b as usize),
                    ),
                forall|s: int|
                    0 <= s < stack.len() ==> (#[trigger] stack@[s]).0 < n
                        && marks@[stack@[s].0 as int],
                forall|a: int, j: int|
                    0 <= a < n && marks0[a] && !stack0.contains(BlockId(a as usize)) && 0 <= j
                        < g[a].len() && Some(#[trigger] g[a][j]) != avoid
                        ==> marks0[g[a][j].0 as int],
                forall|j: int|
                    0 <= j < k && Some(#[trigger] g[block.0 as int][j]) != avoid
                        ==> marks@[g[block.0 as int][j].0 as int],
                unmarked(marks@) < unmarked(marks0) || (marks@ == marks0 && stack@ == base),
        {
            let next = graph[block.0][k];
            assert(g[block.0 as int][k as int] == next);
            let blocked = match avoid {
                Some(x) => x == next,
                None => false,
            };
            if !blocked && !marks[next.0] {
                proof {
                    let path = path_of(g, start, BlockId(block.0), avoid);
                    assert(g[block.0 as int].contains(next));
                    lemma_walk_push(g, path, start, BlockId(block.0), next, avoid);
                    lemma_mark(marks@, next.0 as int);
                    assert(next == BlockId(next.0));
                }
                let ghost prev = stack@;
                marks[next.0] = true;
                stack.push(next);
                proof {
                    assert(stack@[prev.len() as int] == next);
                    assert forall|b: int|
                        0 <= b < n && #[trigger] marks@[b] && !marks0[b] implies stack@.contains(
                        BlockId(b as usize),
                    ) by {
                        if b != next.0 {
                            assert(prev.contains(BlockId(b as usize)));
                            let s = choose|s: int|
                                0 <= s < prev.len() && prev[s] == BlockId(b as usize);
                            assert(stack@[s] == BlockId(b as usize));
                        }
                    }
                }
            }
        }
        proof {
            assert forall|a: int, j: int|
                0 <= a < n && marks@[a] && !stack@.contains(BlockId(a as usize)) && 0 <= j
                    < g[a].len() && Some(#[trigger] g[a][j]) != avoid implies marks@[
                g[a][j].0 as int] by {
                if a == block.0 {
                } else {
                    assert(marks0[a]);
                    if stack0.contains(BlockId(a as usize)) {
                        let s = choose|s: int|
                            0 <= s < stack0.len() && stack0[s] == BlockId(a as usize);
                        assert(base[s] == stack0[s]);
                        assert(stack@[s] == BlockId(a as usize));
                    }
                    assert(marks0[g[a][j].0 as int]);
                }
            }
        }
    }
    assert forall|b: int| 0 <= b < n && reaches(g, start, BlockId(b as usize), avoid) implies
        #[trigger] marks@[b] by {
        let path = path_of(g, start, BlockId(b as usize), avoid);
        lemma_closed_marks(g, marks@, path, start, BlockId(b as usize), avoid, path.len() - 1);
    }
    marks
}

/// The successor lists and the predecessor lists of a function.
pub struct ControlFlowGraph {
    pub succs: Vec<Vec<BlockId>>,
    pub preds: Vec<Vec<BlockId>>,
}

impl ControlFlowGraph {
    /// This is the graph of `f`.
    pub open spec fn of(self, f: FuncView) -> bool {
        &&& lists_view(self.succs@) == succ_lists(f)
        &&& lists_view(self.preds@) == pred_lists(f)
    }

    /// Builds the graph of a function.
    pub fn new(func: &Function) -> (r: Self)
        requires
            func@.wf(),
        ensures
            r.of(func@),
    {
        let succs = successor_lists(func);
        let preds = all_predecessors(func);
        ControlFlowGraph { succs, preds }
    }
}

/// The distinct successors of one block.
pub fn block_successors(func: &Function, block: usize) -> (r: Vec<BlockId>)
    requires
        block < func@.blocks.len(),
    ensures
        r@ == succ_list(func@.blocks[block as int].terminator),
{
    match func.blocks[block].terminator {
        Some(Terminator::Jump(target)) => vec![target],
        Some(Terminator::Branch { cond: _, then_target, else_target }) => if then_target
            == else_target {
            vec![then_target]
        } else {
            vec![then_target, else_target]
        },
        _ => Vec::new(),
    }
}

/// The distinct successors of every block.
pub fn successor_lists(func: &Function) -> (r: Vec<Vec<BlockId>>)
    ensures
        lists_view(r@) == succ_lists(func@),
{
    let mut r: Vec<Vec<BlockId>> = Vec::new();
    let n = func.blocks.len();
    for b in 0..n
        invariant
            n == func@.blocks.len(),
            r.len() == b,
            forall|j: int|
                0 <= j < b ==> #[trigger] r@[j]@ == succ_list(func@.blocks[j].terminator),
    {
        r.push(block_successors(func, b));
    }
    assert(lists_view(r@) =~= succ_lists(func@));
    r
}

/// The predecessors of every block, in ascending order.
pub fn all_predecessors(func: &Function) -> (r: Vec<Vec<BlockId>>)
    requires
        func@.wf(),
    ensures
        lists_view(r@) == pred_lists(func@),
{
    let ghost f = func@;
    let mut r: Vec<Vec<BlockId>> = Vec::new();
    let n = func.blocks.len();
    for b in 0..n
        invariant
            r.len() == b,
            forall|j: int| 0 <= j < b ==> #[trigger] r@[j]@ == Seq::<BlockId>::empty(),
    {
        r.push(Vec::new());
    }
    for a in 0..n
        invariant
            f == func@,
            f.wf(),
            n == f.blocks.len(),
            r.len() == n,
            forall|b: int|
                0 <= b < n ==> #[trigger] r@[b]@ == preds_below(
                    f,
                    BlockId(b as usize),
                    a as int,
                ),
    {
        let succs = block_successors(func, a);
        let m = succs.len();
        assert(edit::block_wf(f.blocks[a as int], f.blocks.len(), f.values.len()));
        for k in 0..m
            invariant
                f == func@,
                n == f.blocks.len(),
                a < n,
                r.len() == n,
                m == succs.len(),
                succs@ == succ_list(f.blocks[a as int].terminator),
                edit::terminator_wf(
                    f.blocks[a as int].terminator,
                    f.blocks.len(),
                    f.values.len(),
                ),
                forall|b: int|
                    0 <= b < n ==> #[trigger] r@[b]@ == (if succs@.take(k as int).contains(
                        BlockId(b as usize),
                    ) {
                        preds_below(f, BlockId(b as usize), a as int).push(BlockId(a))
                    } else {
                        preds_below(f, BlockId(b as usize), a as int)
                    }),
        {
            let target = succs[k];
            let ghost r0 = r@;
            let ghost done = succs@.take(k as int);
            proof {
                assert(!done.contains(target)) by {
                    if done.contains(target) {
                        let i = choose|i: int| 0 <= i < done.len() && done[i] == target;
                        assert(succs@[i] == succs@[k as int]);
                    }
                }
                assert(r0[target.0 as int]@ == preds_below(f, BlockId(target.0), a as int));
                assert(succs@.take(k + 1) =~= done.push(target));
            }
            r[target.0].push(BlockId(a));
            assert forall|b: int| 0 <= b < n implies #[trigger] r@[b]@ == (if succs@.take(
                k + 1,
            ).contains(BlockId(b as usize)) {
                preds_below(f, BlockId(b as usize), a as int).push(BlockId(a))
            } else {
                preds_below(f, BlockId(b as usize), a as int)
            }) by {
                assert(done.push(target)[done.len() as int] == target);
                if b != target.0 {
                    assert(r@[b] == r0[b]);
                    if done.contains(BlockId(b as usize)) {
                        let i = choose|i: int|
                            0 <= i < done.len() && done[i] == BlockId(b as usize);
                        assert(done.push(target)[i] == BlockId(b as usize));
                    }
                }
            }
        }
        proof {
            assert(succs@.take(m as int) =~= succs@);
            assert forall|b: int| 0 <= b < n implies #[trigger] r@[b]@ == preds_below(
                f,
                BlockId(b as usize),
                a + 1,
            ) by {}
        }
    }
    assert(lists_view(r@) =~= pred_lists(f));
    r
}

/// Successor lists and predecessor lists only name blocks of the function.
pub proof fn lemma_graph_wf(f: FuncView)
    requires
        f.wf(),
        f.blocks.len() <= usize::MAX,
    ensures
        graph_wf(succ_lists(f)),
        graph_wf(pred_lists(f)),
{
    assert forall|a: int, k: int|
        0 <= a < f.blocks.len() && 0 <= k < succ_lists(f)[a].len() implies (
    #[trigger] succ_lists(f)[a][k]).0 < f.blocks.len() by {
        assert(edit::block_wf(f.blocks[a], f.blocks.len(), f.values.len()));
    }
    assert forall|a: int, k: int|
        0 <= a < f.blocks.len() && 0 <= k < pred_lists(f)[a].len() implies (
    #[trigger] pred_lists(f)[a][k]).0 < f.blocks.len() by {
        lemma_preds_below_sorted(f, BlockId(a as usize), f.blocks.len() as int);
    }
}

// ---------------------------------------------------------------------------
// Dominance
// ---------------------------------------------------------------------------

/// Which blocks are reachable, and which blocks dominate which.
pub struct Dominators {
    pub reached: Vec<bool>,
    pub table: Vec<Vec<bool>>,
}

impl Dominators {
    /// The table says that `a` dominates `b`.
    pub open spec fn says(self, a: BlockId, b: BlockId) -> bool {
        self.table@[a.0 as int]@[b.0 as int]
    }

    /// This is the dominance table of `f`.
    pub open spec fn of(self, f: FuncView) -> bool {
        &&& self.reached.len() == f.blocks.len()
        &&& self.table.len() == f.blocks.len()
        &&& forall|b: int|
            0 <= b < f.blocks.len() ==> (#[trigger] self.reached@[b] <==> reachable(
                f,
                BlockId(b as usize),
            ))
        &&& forall|a: int|
            0 <= a < f.blocks.len() ==> (#[trigger] self.table@[a]).len() == f.blocks.len()
        &&& forall|a: int, b: int|
            0 <= a < f.blocks.len() && 0 <= b < f.blocks.len() ==> (
            #[trigger] self.table@[a]@[b] <==> dominates(
                f,
                BlockId(a as usize),
                BlockId(b as usize),
            ))
    }

    /// Computes reachability and dominance.
    pub fn new(func: &Function, cfg: &ControlFlowGraph) -> (r: Self)
        requires
            func@.wf(),
            cfg.of(func@),
        ensures
            r.of(func@),
    {
        let ghost f = func@;
        let n = func.blocks.len();
        proof {
            lemma_graph_wf(f);
        }
        assert(cfg.succs@.len() == lists_view(cfg.succs@).len());
        let reached = reach_from(&cfg.succs, func.entry, None);
        let mut table: Vec<Vec<bool>> = Vec::new();
        for a in 0..n
            invariant
                f == func@,
                f.wf(),
                n == f.blocks.len(),
                n == func.blocks.len(),
                lists_view(cfg.succs@) == succ_lists(f),
                cfg.succs@.len() == n,
                graph_wf(succ_lists(f)),
                reached.len() == n,
                forall|b: int|
                    0 <= b < n ==> (#[trigger] reached@[b] <==> reachable(f, BlockId(b as usize))),
                table.len() == a,
                forall|x: int| 0 <= x < a ==> (#[trigger] table@[x]).len() == n,
                forall|x: int, b: int|
                    0 <= x < a && 0 <= b < n ==> (#[trigger] table@[x]@[b] <==> dominates(
                        f,
                        BlockId(x as usize),
                        BlockId(b as usize),
                    )),
        {
            let around = reach_from(&cfg.succs, func.entry, Some(BlockId(a)));
            let mut row: Vec<bool> = Vec::new();
            for b in 0..n
                invariant
                    f == func@,
                    n == f.blocks.len(),
                    a < n,
                    reached.len() == n,
                    around.len() == n,
                    forall|x: int|
                        0 <= x < n ==> (#[trigger] reached@[x] <==> reachable(
                            f,
                            BlockId(x as usize),
                        )),
                    forall|x: int|
                        0 <= x < n ==> (#[trigger] around@[x] <==> reaches(
                            succ_lists(f),
                            f.entry,
                            BlockId(x as usize),
                            Some(BlockId(a)),
                        )),
                    row.len() == b,
                    forall|x: int|
                        0 <= x < b ==> (#[trigger] row@[x] <==> dominates(
                            f,
                            BlockId(a),
                            BlockId(x as usize),
                        )),
            {
                row.push(reached[b] && !around[b]);
                proof {
                    lemma_dominates(f, BlockId(a), BlockId(b));
                    assert(around@[b as int] <==> reaches(
                        succ_lists(f),
                        f.entry,
                        BlockId(b),
                        Some(BlockId(a)),
                    ));
                }
            }
            table.push(row);
        }
        Dominators { reached, table }
    }

    /// Whether `a` dominates `b`.
    pub fn dominates(&self, a: BlockId, b: BlockId) -> (r: bool)
        requires
            a.0 < self.table.len(),
            b.0 < self.table@[a.0 as int].len(),
        ensures
            r == self.says(a, b),
    {
        self.table[a.0][b.0]
    }

    /// Whether `b` can be reached from the entry.
    pub fn is_reachable(&self, b: BlockId) -> (r: bool)
        requires
            b.0 < self.reached.len(),
        ensures
            r == self.reached@[b.0 as int],
    {
        self.reached[b.0]
    }
}

/// A reachable block is dominated by `a` exactly if it cannot be reached
/// around `a`.
pub proof fn lemma_dominates(f: FuncView, a: BlockId, b: BlockId)
    ensures
        dominates(f, a, b) <==> reachable(f, b) && !reaches(succ_lists(f), f.entry, b, Some(a)),
{
    let g = succ_lists(f);
    if reaches(g, f.entry, b, Some(a)) {
        let path = path_of(g, f.entry, b, Some(a));
        assert(walk(g, path, f.entry, b, None));
        assert(!path.contains(a)) by {
            if path.contains(a) {
                let k = choose|k: int| 0 <= k < path.len() && path[k] == a;
                assert(Some(path[k]) != Some(a));
            }
        }
    }
    if reachable(f, b) && !dominates(f, a, b) {
        let path = choose|path: Seq<BlockId>|
            #[trigger] walk(g, path, f.entry, b, None) && !path.contains(a);
        assert forall|k: int| 0 <= k < path.len() implies (#[trigger] path[k]).0 < g.len() && Some(
            path[k],
        ) != Some(a) by {
            assert(path.contains(path[k]));
        }
        assert(walk(g, path, f.entry, b, Some(a)));
    }
}

/// The two functions have the same blocks with the same successors.
pub open spec fn same_edges(f: FuncView, g: FuncView) -> bool {
    &&& f.blocks.len() == g.blocks.len()
    &&& forall|b: int|
        0 <= b < f.blocks.len() ==> succ_list((#[trigger] f.blocks[b]).terminator) == succ_list(
            g.blocks[b].terminator,
        )
}

proof fn lemma_same_preds(f: FuncView, g: FuncView, b: BlockId, n: int)
    requires
        same_edges(f, g),
        n <= f.blocks.len() <= usize::MAX,
    ensures
        preds_below(f, b, n) == preds_below(g, b, n),
    decreases n,
{
    if n > 0 {
        lemma_same_preds(f, g, b, n - 1);
        assert(f.terminator(BlockId((n - 1) as usize)) == f.blocks[n - 1].terminator);
    }
}

/// Functions with the same edges have the same graph.
pub proof fn lemma_same_graph(f: FuncView, g: FuncView)
    requires
        same_edges(f, g),
        f.blocks.len() <= usize::MAX,
    ensures
        succ_lists(f) == succ_lists(g),
        pred_lists(f) == pred_lists(g),
{
    assert(succ_lists(f) =~= succ_lists(g));
    assert forall|b: int| 0 <= b < f.blocks.len() implies pred_lists(f)[b] == pred_lists(g)[b] by {
        lemma_same_preds(f, g, BlockId(b as usize), f.blocks.len() as int);
    }
    assert(pred_lists(f) =~= pred_lists(g));
}

} // verus!
