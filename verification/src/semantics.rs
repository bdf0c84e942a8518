//! What a function computes, whatever its instructions mean.
//!
//! Control flow is interpreted here: jumps, branches, phis and returns. The
//! meaning of every other instruction is a parameter.
use vstd::prelude::*;

use crate::edit;
use crate::ir::{
    BinaryOp, BlockId, CastOp, CompareOp, Const, FuncView, InstView, KindView, Terminator, UnaryOp,
    ValueId, ValueKindView,
};
use crate::query;
use crate::util;

verus! {

/// The meaning of constants, globals and instructions over data `D` and
/// memories `M`.
#[verifier::reject_recursive_types(D)]
#[verifier::reject_recursive_types(M)]
pub struct Meaning<D, M> {
    pub constant: spec_fn(Const) -> D,
    pub global: spec_fn(Seq<char>) -> D,
    /// Which way a branch on the datum goes.
    pub truth: spec_fn(D) -> bool,
    /// The result and the new memory of an instruction, by its shape, the data
    /// of its operands and the memory.
    pub apply: spec_fn(KindView, Seq<D>, M) -> (D, M),
}

impl<D, M> Meaning<D, M> {
    /// A branch on a constant goes the way that the constant says.
    pub open spec fn decides_constants(self) -> bool {
        forall|c: Const|
            query::const_truth(c) matches Some(way) ==> (self.truth)(#[trigger] (self.constant)(c))
                == way
    }

    /// The datum of a boolean.
    pub open spec fn boolean(self, b: bool) -> D {
        (self.constant)(Const::Bool(b))
    }

    /// The datum of an integer.
    pub open spec fn integer(self, i: i32) -> D {
        (self.constant)(Const::Int(i))
    }

    /// The result of an operation.
    pub open spec fn result(self, kind: KindView, data: Seq<D>, memory: M) -> D {
        (self.apply)(shape(kind), data, memory).0
    }

    /// The result of an operation with one operand.
    pub open spec fn of_one(self, kind: KindView, a: D, memory: M) -> D {
        self.result(kind, seq![a], memory)
    }

    /// The result of an operation with two operands.
    pub open spec fn of_two(self, op: BinaryOp, v: ValueId, w: ValueId, a: D, b: D, memory: M) -> D {
        self.result(KindView::Binary { op, lhs: v, rhs: w }, seq![a, b], memory)
    }

    pub open spec fn is_boolean(self, d: D) -> bool {
        d == self.boolean(true) || d == self.boolean(false)
    }

    /// The logical operations are what they are called, and comparisons give
    /// booleans.
    pub open spec fn has_booleans(self) -> bool {
        &&& (self.truth)(self.boolean(true))
        &&& !(self.truth)(self.boolean(false))
        &&& forall|v: ValueId, a: D, memory: M| #[trigger]
            self.of_one(KindView::Unary { op: UnaryOp::Not, value: v }, a, memory) == self.boolean(
                !(self.truth)(a),
            )
        &&& forall|v: ValueId, w: ValueId, a: D, b: D, memory: M| #[trigger]
            self.of_two(BinaryOp::And, v, w, a, b, memory) == self.boolean(
                (self.truth)(a) && (self.truth)(b),
            )
        &&& forall|v: ValueId, w: ValueId, a: D, b: D, memory: M| #[trigger]
            self.of_two(BinaryOp::Or, v, w, a, b, memory) == self.boolean(
                (self.truth)(a) || (self.truth)(b),
            )
        &&& forall|op: CompareOp, v: ValueId, w: ValueId, data: Seq<D>, memory: M|
            self.is_boolean(
                #[trigger] self.result(KindView::ICompare { op, lhs: v, rhs: w }, data, memory),
            )
        &&& forall|v: ValueId, data: Seq<D>, memory: M|
            self.is_boolean(
                #[trigger] self.result(
                    KindView::Cast { op: CastOp::I32ToBool, value: v },
                    data,
                    memory,
                ),
            )
    }

    /// One is neutral in products, zero makes them zero and is neutral in sums
    /// and differences, and a boolean counts as one or zero.
    pub open spec fn has_integers(self) -> bool {
        &&& forall|v: ValueId, a: D, memory: M| #[trigger]
            self.of_one(KindView::Cast { op: CastOp::BoolToI32, value: v }, a, memory)
                == self.integer(
                if (self.truth)(a) {
                    1
                } else {
                    0
                },
            )
        &&& forall|v: ValueId, w: ValueId, a: D, b: D, memory: M|
            b == self.integer(1) ==> #[trigger] self.of_two(
                BinaryOp::Imul,
                v,
                w,
                a,
                b,
                memory,
            ) == a
        &&& forall|v: ValueId, w: ValueId, a: D, b: D, memory: M|
            b == self.integer(0) ==> #[trigger] self.of_two(
                BinaryOp::Imul,
                v,
                w,
                a,
                b,
                memory,
            ) == b
        &&& forall|op: BinaryOp, v: ValueId, w: ValueId, a: D, b: D, memory: M|
            (op == BinaryOp::Iadd || op == BinaryOp::Isub) && b == self.integer(0)
                ==> #[trigger] self.of_two(op, v, w, a, b, memory) == a
    }

    /// Arithmetic neither reads nor writes memory.
    pub open spec fn computes_apart_from_memory(self) -> bool {
        &&& forall|kind: KindView, data: Seq<D>, memory: M|
            is_plain(kind) ==> (#[trigger] (self.apply)(kind, data, memory)).1 == memory
        &&& forall|kind: KindView, data: Seq<D>, memory: M, other: M|
            is_plain(kind) ==> (#[trigger] (self.apply)(kind, data, memory)).0 == (
            #[trigger] (self.apply)(kind, data, other)).0
    }
}

/// The operation computes its result from its operands and does nothing else.
pub open spec fn is_plain(kind: KindView) -> bool {
    kind is Unary || kind is Binary || kind is ICompare || kind is FCompare || kind is Cast
        || kind is Gep
}

/// The instruction without the names of its operands.
pub open spec fn shape(kind: KindView) -> KindView {
    util::map_kind(kind, |v: ValueId| ValueId(0))
}

/// The state of a run.
#[verifier::reject_recursive_types(D)]
#[verifier::reject_recursive_types(M)]
pub enum State<D, M> {
    /// Control is in `block`, behind its phis.
    Running { block: BlockId, env: Map<ValueId, D>, memory: M },
    Returned { value: Option<D>, memory: M },
    /// The block has no terminator.
    Stuck,
}

/// The data before the first instruction. A value that is still to be computed
/// holds the zero of its type.
pub open spec fn initial<D, M>(f: FuncView, m: Meaning<D, M>, args: Map<ValueId, D>) -> Map<
    ValueId,
    D,
> {
    Map::new(
        |v: ValueId| true,
        |v: ValueId|
            if f.has_value(v) {
                match f.value(v).kind {
                    ValueKindView::Param => args[v],
                    ValueKindView::Const(c) => (m.constant)(c),
                    ValueKindView::Global(name) => (m.global)(name),
                    ValueKindView::Inst(_, _) => (m.constant)(Const::Zero(f.value(v).ty)),
                }
            } else {
                args[v]
            },
    )
}

/// The data after the first `n` instructions have taken part in the parallel
/// assignment of the phis; control comes from `pred`.
pub open spec fn phis_assigned<D>(
    insts: Seq<InstView>,
    n: int,
    pred: BlockId,
    old: Map<ValueId, D>,
) -> Map<ValueId, D>
    decreases n,
{
    if n <= 0 {
        old
    } else {
        let env = phis_assigned(insts, n - 1, pred, old);
        match (insts[n - 1].result, insts[n - 1].kind) {
            (Some(v), KindView::Phi { incomings }) => match util::incoming_from(incomings, pred) {
                Some(w) => env.insert(v, old[w]),
                None => env,
            },
            _ => env,
        }
    }
}

/// The data and the memory after the first `n` instructions of a block.
pub open spec fn executed<D, M>(
    m: Meaning<D, M>,
    insts: Seq<InstView>,
    n: int,
    env: Map<ValueId, D>,
    memory: M,
) -> (Map<ValueId, D>, M)
    decreases n,
{
    if n <= 0 {
        (env, memory)
    } else {
        let (before, mem) = executed(m, insts, n - 1, env, memory);
        let inst = insts[n - 1];
        match inst.kind {
            KindView::Phi { .. } => (before, mem),
            KindView::Nop => (before, mem),
            kind => {
                let data = edit::operands(kind).map_values(|v: ValueId| before[v]);
                let (d, next) = (m.apply)(shape(kind), data, mem);
                match inst.result {
                    Some(v) => (before.insert(v, d), next),
                    None => (before, next),
                }
            },
        }
    }
}

/// Control passes from `pred` to `block`.
pub open spec fn arrived<D, M>(
    f: FuncView,
    pred: BlockId,
    block: BlockId,
    env: Map<ValueId, D>,
    memory: M,
) -> State<D, M> {
    let insts = f.block(block).insts;
    State::Running {
        block,
        env: phis_assigned(insts, insts.len() as int, pred, env),
        memory,
    }
}

/// The block at whose end control stands is left.
pub open spec fn left<D, M>(
    f: FuncView,
    m: Meaning<D, M>,
    block: BlockId,
    env: Map<ValueId, D>,
    memory: M,
) -> State<D, M> {
    match f.terminator(block) {
        Some(Terminator::Return(Some(v))) => State::Returned { value: Some(env[v]), memory },
        Some(Terminator::Return(None)) => State::Returned { value: None, memory },
        Some(Terminator::Jump(target)) => arrived(f, block, target, env, memory),
        Some(Terminator::Branch { cond, then_target, else_target }) => arrived(
            f,
            block,
            if (m.truth)(env[cond]) {
                then_target
            } else {
                else_target
            },
            env,
            memory,
        ),
        None => State::Stuck,
    }
}

/// One block is run.
pub open spec fn step<D, M>(f: FuncView, m: Meaning<D, M>, s: State<D, M>) -> State<D, M> {
    match s {
        State::Running { block, env, memory } => {
            let insts = f.block(block).insts;
            let (after, mem) = executed(m, insts, insts.len() as int, env, memory);
            left(f, m, block, after, mem)
        },
        s => s,
    }
}

/// `n` blocks are run.
pub open spec fn steps<D, M>(f: FuncView, m: Meaning<D, M>, s: State<D, M>, n: nat) -> State<D, M>
    decreases n,
{
    if n == 0 {
        s
    } else {
        step(f, m, steps(f, m, s, (n - 1) as nat))
    }
}

/// The state in which a call begins.
pub open spec fn start<D, M>(
    f: FuncView,
    m: Meaning<D, M>,
    args: Map<ValueId, D>,
    memory: M,
) -> State<D, M> {
    State::Running { block: f.entry, env: initial(f, m, args), memory }
}

/// A call with the arguments and the memory returns, and `out` is what it
/// leaves.
pub open spec fn yields<D, M>(
    f: FuncView,
    m: Meaning<D, M>,
    args: Map<ValueId, D>,
    memory: M,
    out: State<D, M>,
) -> bool {
    &&& out is Returned
    &&& exists|n: nat| #[trigger] steps(f, m, start(f, m, args, memory), n) == out
}

// ---------------------------------------------------------------------------
// Blocks that compute the same
// ---------------------------------------------------------------------------

/// Coming from `pred` and `other`, the two instructions have the same effect.
pub open spec fn agree(a: InstView, b: InstView, pred: BlockId, other: BlockId) -> bool {
    &&& a.result == b.result
    &&& match (a.kind, b.kind) {
        (KindView::Phi { incomings }, KindView::Phi { incomings: list }) => util::incoming_from(
            incomings,
            pred,
        ) == util::incoming_from(list, other),
        (KindView::Phi { .. }, _) => false,
        (_, KindView::Phi { .. }) => false,
        (k, l) => k == l,
    }
}

pub proof fn lemma_same_assignment<D>(
    a: Seq<InstView>,
    b: Seq<InstView>,
    n: int,
    pred: BlockId,
    other: BlockId,
    old: Map<ValueId, D>,
)
    requires
        n <= a.len(),
        a.len() == b.len(),
        forall|i: int| 0 <= i < a.len() ==> agree(#[trigger] a[i], b[i], pred, other),
    ensures
        phis_assigned(a, n, pred, old) == phis_assigned(b, n, other, old),
    decreases n,
{
    if n > 0 {
        lemma_same_assignment(a, b, n - 1, pred, other, old);
        assert(agree(a[n - 1], b[n - 1], pred, other));
    }
}

/// The two instructions are the same but for the lists of phis.
pub open spec fn same_work(a: InstView, b: InstView) -> bool {
    &&& a.result == b.result
    &&& (a.kind is Phi <==> b.kind is Phi)
    &&& a.kind is Phi || a.kind == b.kind
}

pub proof fn lemma_same_execution<D, M>(
    m: Meaning<D, M>,
    a: Seq<InstView>,
    b: Seq<InstView>,
    n: int,
    env: Map<ValueId, D>,
    memory: M,
)
    requires
        n <= a.len(),
        n <= b.len(),
        forall|i: int| 0 <= i < n ==> same_work(#[trigger] a[i], b[i]),
    ensures
        executed(m, a, n, env, memory) == executed(m, b, n, env, memory),
    decreases n,
{
    if n > 0 {
        lemma_same_execution(m, a, b, n - 1, env, memory);
        assert(same_work(a[n - 1], b[n - 1]));
    }
}

/// A run that has returned stays as it is.
pub proof fn returned_runs_stay<D, M>(f: FuncView, m: Meaning<D, M>, s: State<D, M>, n: nat)
    requires
        s is Returned,
    ensures
        steps(f, m, s, n) == s,
    decreases n,
{
    if n > 0 {
        returned_runs_stay(f, m, s, (n - 1) as nat);
    }
}

pub proof fn lemma_steps_add<D, M>(
    f: FuncView,
    m: Meaning<D, M>,
    s: State<D, M>,
    j: nat,
    k: nat,
)
    ensures
        steps(f, m, steps(f, m, s, j), k) == steps(f, m, s, j + k),
    decreases k,
{
    if k > 0 {
        lemma_steps_add(f, m, s, j, (k - 1) as nat);
    }
}

/// Two states of runs that correspond to each other are both running, or have
/// ended in the same way.
pub open spec fn end_alike<D, M>(rel: spec_fn(State<D, M>, State<D, M>) -> bool) -> bool {
    forall|s: State<D, M>, t: State<D, M>| #[trigger]
        rel(s, t) && (s is Returned || t is Returned) ==> s == t
}

/// From corresponding states, a step of `g` corresponds to one or more steps of
/// `f`.
pub open spec fn caught_up<D, M>(
    f: FuncView,
    g: FuncView,
    m: Meaning<D, M>,
    rel: spec_fn(State<D, M>, State<D, M>) -> bool,
    s: State<D, M>,
    t: State<D, M>,
) -> bool {
    rel(s, t) ==> exists|k: nat| k >= 1 && rel(#[trigger] steps(f, m, s, k), step(g, m, t))
}

/// Each step of `g` corresponds to one or more steps of `f`.
pub open spec fn follows<D, M>(
    f: FuncView,
    g: FuncView,
    m: Meaning<D, M>,
    rel: spec_fn(State<D, M>, State<D, M>) -> bool,
) -> bool {
    forall|s: State<D, M>, t: State<D, M>| #[trigger] caught_up(f, g, m, rel, s, t)
}

proof fn lemma_followed<D, M>(
    f: FuncView,
    g: FuncView,
    m: Meaning<D, M>,
    rel: spec_fn(State<D, M>, State<D, M>) -> bool,
    s: State<D, M>,
    t: State<D, M>,
    n: nat,
) -> (k: nat)
    requires
        follows(f, g, m, rel),
        rel(s, t),
    ensures
        k >= n,
        rel(steps(f, m, s, k), steps(g, m, t, n)),
    decreases n,
{
    if n == 0 {
        0
    } else {
        let j = lemma_followed(f, g, m, rel, s, t, (n - 1) as nat);
        let here = steps(f, m, s, j);
        let there = steps(g, m, t, (n - 1) as nat);
        assert(caught_up(f, g, m, rel, here, there));
        let k = choose|k: nat|
            k >= 1 && rel(#[trigger] steps(f, m, here, k), step(g, m, there));
        lemma_steps_add(f, m, s, j, k);
        j + k
    }
}

/// A function whose every step corresponds to one or more steps of another one
/// computes the same.
pub proof fn followers_compute_the_same<D, M>(
    f: FuncView,
    g: FuncView,
    m: Meaning<D, M>,
    rel: spec_fn(State<D, M>, State<D, M>) -> bool,
    args: Map<ValueId, D>,
    memory: M,
    out: State<D, M>,
)
    requires
        follows(f, g, m, rel),
        end_alike(rel),
        rel(start(f, m, args, memory), start(g, m, args, memory)),
    ensures
        yields(g, m, args, memory, out) == yields(f, m, args, memory, out),
{
    let s = start(f, m, args, memory);
    let t = start(g, m, args, memory);
    if yields(f, m, args, memory, out) {
        let n = choose|n: nat| #[trigger] steps(f, m, s, n) == out;
        let k = lemma_followed(f, g, m, rel, s, t, n);
        lemma_steps_add(f, m, s, n, (k - n) as nat);
        returned_runs_stay(f, m, out, (k - n) as nat);
        assert(rel(out, steps(g, m, t, n)));
        assert(steps(g, m, t, n) == out);
    }
    if yields(g, m, args, memory, out) {
        let n = choose|n: nat| #[trigger] steps(g, m, t, n) == out;
        let k = lemma_followed(f, g, m, rel, s, t, n);
        assert(rel(steps(f, m, s, k), out));
        assert(steps(f, m, s, k) == out);
    }
}

/// From corresponding states, one or more steps of `g` correspond to one or more
/// steps of `f`.
pub open spec fn meets<D, M>(
    f: FuncView,
    g: FuncView,
    m: Meaning<D, M>,
    rel: spec_fn(State<D, M>, State<D, M>) -> bool,
    s: State<D, M>,
    t: State<D, M>,
) -> bool {
    rel(s, t) ==> exists|k: nat, j: nat|
        k >= 1 && j >= 1 && rel(#[trigger] steps(f, m, s, k), #[trigger] steps(g, m, t, j))
}

pub proof fn lemma_met<D, M>(
    f: FuncView,
    g: FuncView,
    m: Meaning<D, M>,
    rel: spec_fn(State<D, M>, State<D, M>) -> bool,
    s: State<D, M>,
    t: State<D, M>,
    n: nat,
) -> (r: (nat, nat))
    requires
        forall|s: State<D, M>, t: State<D, M>| #[trigger] meets(f, g, m, rel, s, t),
        rel(s, t),
    ensures
        r.0 >= n,
        r.1 >= n,
        rel(steps(f, m, s, r.0), steps(g, m, t, r.1)),
    decreases n,
{
    if n == 0 {
        (0, 0)
    } else {
        let (k, j) = lemma_met(f, g, m, rel, s, t, (n - 1) as nat);
        let here = steps(f, m, s, k);
        let there = steps(g, m, t, j);
        assert(meets(f, g, m, rel, here, there));
        let (p, q) = choose|p: nat, q: nat|
            p >= 1 && q >= 1 && rel(#[trigger] steps(f, m, here, p), #[trigger] steps(g, m, there, q));
        lemma_steps_add(f, m, s, k, p);
        lemma_steps_add(g, m, t, j, q);
        (k + p, j + q)
    }
}

/// Functions whose runs meet again and again compute the same.
pub proof fn meeting_functions_compute_the_same<D, M>(
    f: FuncView,
    g: FuncView,
    m: Meaning<D, M>,
    rel: spec_fn(State<D, M>, State<D, M>) -> bool,
    args: Map<ValueId, D>,
    memory: M,
    out: State<D, M>,
)
    requires
        forall|s: State<D, M>, t: State<D, M>| #[trigger] meets(f, g, m, rel, s, t),
        end_alike(rel),
        rel(start(f, m, args, memory), start(g, m, args, memory)),
    ensures
        yields(g, m, args, memory, out) == yields(f, m, args, memory, out),
{
    let s = start(f, m, args, memory);
    let t = start(g, m, args, memory);
    if yields(f, m, args, memory, out) {
        let n = choose|n: nat| #[trigger] steps(f, m, s, n) == out;
        let (k, j) = lemma_met(f, g, m, rel, s, t, n);
        lemma_steps_add(f, m, s, n, (k - n) as nat);
        returned_runs_stay(f, m, out, (k - n) as nat);
        assert(rel(out, steps(g, m, t, j)));
        assert(steps(g, m, t, j) == out);
    }
    if yields(g, m, args, memory, out) {
        let n = choose|n: nat| #[trigger] steps(g, m, t, n) == out;
        let (k, j) = lemma_met(f, g, m, rel, s, t, n);
        lemma_steps_add(g, m, t, n, (j - n) as nat);
        returned_runs_stay(g, m, out, (j - n) as nat);
        assert(rel(steps(f, m, s, k), out));
        assert(steps(f, m, s, k) == out);
    }
}

/// Each step of `g` leads where one or more steps of `f` lead, as long as `inv`
/// holds.
pub open spec fn keeps_up<D, M>(
    f: FuncView,
    g: FuncView,
    m: Meaning<D, M>,
    inv: spec_fn(State<D, M>) -> bool,
) -> bool {
    forall|s: State<D, M>|
        inv(s) ==> inv(#[trigger] step(g, m, s)) && exists|k: nat|
            k >= 1 && #[trigger] steps(f, m, s, k) == step(g, m, s)
}

proof fn lemma_keeps_up<D, M>(
    f: FuncView,
    g: FuncView,
    m: Meaning<D, M>,
    inv: spec_fn(State<D, M>) -> bool,
    rel: spec_fn(State<D, M>, State<D, M>) -> bool,
)
    requires
        keeps_up(f, g, m, inv),
        rel == (|s: State<D, M>, t: State<D, M>| s == t && inv(t)),
    ensures
        follows(f, g, m, rel),
{
    assert forall|s: State<D, M>, t: State<D, M>| #[trigger] caught_up(f, g, m, rel, s, t) by {
        if rel(s, t) {
            assert(inv(step(g, m, t)));
            let k = choose|k: nat| k >= 1 && #[trigger] steps(f, m, s, k) == step(g, m, s);
            assert(rel(steps(f, m, s, k), step(g, m, t)));
        }
    }
}

/// The same for steps that lead to the same state.
pub proof fn lemma_same_states<D, M>(
    f: FuncView,
    g: FuncView,
    m: Meaning<D, M>,
    inv: spec_fn(State<D, M>) -> bool,
    args: Map<ValueId, D>,
    memory: M,
    out: State<D, M>,
)
    requires
        keeps_up(f, g, m, inv),
        inv(start(f, m, args, memory)),
        start(g, m, args, memory) == start(f, m, args, memory),
    ensures
        yields(g, m, args, memory, out) == yields(f, m, args, memory, out),
{
    let rel = |s: State<D, M>, t: State<D, M>| s == t && inv(t);
    lemma_keeps_up(f, g, m, inv, rel);
    followers_compute_the_same(f, g, m, rel, args, memory, out);
}

// ---------------------------------------------------------------------------
// Values that nothing reads
// ---------------------------------------------------------------------------

/// The data agree on all values outside `unread`.
pub open spec fn alike<D>(a: Map<ValueId, D>, b: Map<ValueId, D>, unread: Set<ValueId>) -> bool {
    forall|v: ValueId| !unread.contains(v) ==> #[trigger] a[v] == b[v]
}

/// No operation reads a value of the set.
pub open spec fn ignores(kind: KindView, unread: Set<ValueId>) -> bool {
    forall|k: int|
        0 <= k < edit::operands(kind).len() ==> !unread.contains(#[trigger] edit::operands(kind)[k])
}

/// Operations that ignore the set see the same data.
pub proof fn lemma_same_data<D>(
    kind: KindView,
    a: Map<ValueId, D>,
    b: Map<ValueId, D>,
    unread: Set<ValueId>,
)
    requires
        ignores(kind, unread),
        alike(a, b, unread),
    ensures
        edit::operands(kind).map_values(|v: ValueId| a[v]) == edit::operands(kind).map_values(
            |v: ValueId| b[v],
        ),
{
    assert(edit::operands(kind).map_values(|v: ValueId| a[v]) =~= edit::operands(
        kind,
    ).map_values(|v: ValueId| b[v]));
}

pub proof fn lemma_executed_alike<D, M>(
    m: Meaning<D, M>,
    insts: Seq<InstView>,
    n: int,
    a: Map<ValueId, D>,
    b: Map<ValueId, D>,
    memory: M,
    unread: Set<ValueId>,
)
    requires
        n <= insts.len(),
        forall|i: int|
            0 <= i < n ==> (#[trigger] insts[i]).kind is Phi || ignores(insts[i].kind, unread),
        alike(a, b, unread),
    ensures
        alike(
            executed(m, insts, n, a, memory).0,
            executed(m, insts, n, b, memory).0,
            unread,
        ),
        executed(m, insts, n, a, memory).1 == executed(m, insts, n, b, memory).1,
    decreases n,
{
    if n > 0 {
        lemma_executed_alike(m, insts, n - 1, a, b, memory, unread);
        let (x, _) = executed(m, insts, n - 1, a, memory);
        let (y, _) = executed(m, insts, n - 1, b, memory);
        let kind = insts[n - 1].kind;
        assert(kind is Phi || ignores(kind, unread));
        if !(kind is Phi) {
            lemma_same_data(kind, x, y, unread);
        }
    }
}

pub proof fn lemma_assigned_alike<D>(
    insts: Seq<InstView>,
    n: int,
    pred: BlockId,
    a: Map<ValueId, D>,
    b: Map<ValueId, D>,
    unread: Set<ValueId>,
)
    requires
        n <= insts.len(),
        forall|i: int| 0 <= i < insts.len() ==> ignores((#[trigger] insts[i]).kind, unread),
        alike(a, b, unread),
    ensures
        alike(
            phis_assigned(insts, n, pred, a),
            phis_assigned(insts, n, pred, b),
            unread,
        ),
    decreases n,
{
    if n > 0 {
        lemma_assigned_alike(insts, n - 1, pred, a, b, unread);
        assert(ignores(insts[n - 1].kind, unread));
        if let KindView::Phi { incomings } = insts[n - 1].kind {
            lemma_incoming_is_operand(incomings, pred);
            if let Some(w) = util::incoming_from(incomings, pred) {
                let list = edit::operands(insts[n - 1].kind);
                let k = choose|k: int| 0 <= k < list.len() && list[k] == w;
                assert(!unread.contains(list[k]));
            }
        }
    }
}

/// Coming from `pred` and `other`, the two instructions assign the same datum to
/// the same value.
pub open spec fn takes_alike<D>(
    a: InstView,
    b: InstView,
    pred: BlockId,
    other: BlockId,
    x: Map<ValueId, D>,
    y: Map<ValueId, D>,
) -> bool {
    match (a.result, a.kind, b.result, b.kind) {
        (
            Some(v),
            KindView::Phi { incomings },
            Some(w),
            KindView::Phi { incomings: list },
        ) => v == w && match (
            util::incoming_from(incomings, pred),
            util::incoming_from(list, other),
        ) {
            (Some(s), Some(t)) => x[s] == y[t],
            (None, None) => true,
            _ => false,
        },
        (Some(_), KindView::Phi { .. }, _, _) => false,
        (_, _, Some(_), KindView::Phi { .. }) => false,
        _ => true,
    }
}

pub proof fn lemma_assigned_pairwise<D>(
    a: Seq<InstView>,
    b: Seq<InstView>,
    n: int,
    pred: BlockId,
    other: BlockId,
    x: Map<ValueId, D>,
    y: Map<ValueId, D>,
    unread: Set<ValueId>,
)
    requires
        n <= a.len(),
        a.len() == b.len(),
        forall|i: int|
            0 <= i < a.len() ==> takes_alike(#[trigger] a[i], b[i], pred, other, x, y),
        alike(x, y, unread),
    ensures
        alike(phis_assigned(a, n, pred, x), phis_assigned(b, n, other, y), unread),
    decreases n,
{
    if n > 0 {
        lemma_assigned_pairwise(a, b, n - 1, pred, other, x, y, unread);
        assert(takes_alike(a[n - 1], b[n - 1], pred, other, x, y));
    }
}

/// What a phi takes is one of its operands.
pub proof fn lemma_incoming_is_operand(incomings: Seq<(BlockId, ValueId)>, pred: BlockId)
    ensures
        util::incoming_from(incomings, pred) matches Some(w) ==> edit::operands(
            KindView::Phi { incomings },
        ).contains(w),
    decreases incomings.len(),
{
    let list = edit::operands(KindView::Phi { incomings });
    if incomings.len() > 0 {
        let rest = incomings.drop_first();
        lemma_incoming_is_operand(rest, pred);
        if incomings[0].0 == pred {
            assert(list[0] == incomings[0].1);
        } else if let Some(w) = util::incoming_from(rest, pred) {
            let tail = edit::operands(KindView::Phi { incomings: rest });
            let k = choose|k: int| 0 <= k < tail.len() && tail[k] == w;
            assert(list[k + 1] == tail[k]);
        }
    }
}

pub proof fn lemma_few_steps<D, M>(f: FuncView, m: Meaning<D, M>, s: State<D, M>)
    ensures
        steps(f, m, s, 1) == step(f, m, s),
        steps(f, m, s, 2) == step(f, m, step(f, m, s)),
{
    reveal_with_fuel(steps, 3);
}

/// Without phis that define a value, nothing is assigned.
pub proof fn lemma_nothing_assigned<D>(
    insts: Seq<InstView>,
    n: int,
    pred: BlockId,
    env: Map<ValueId, D>,
)
    requires
        n <= insts.len(),
        forall|i: int|
            0 <= i < insts.len() ==> !((#[trigger] insts[i]).kind is Phi) || insts[i].result
                is None,
    ensures
        phis_assigned(insts, n, pred, env) == env,
    decreases n,
{
    if n > 0 {
        lemma_nothing_assigned(insts, n - 1, pred, env);
        assert(!(insts[n - 1].kind is Phi) || insts[n - 1].result is None);
    }
}

/// Instructions behind the first `k` that define no phi assign nothing.
pub proof fn lemma_assigned_by_prefix<D>(
    insts: Seq<InstView>,
    k: int,
    n: int,
    pred: BlockId,
    env: Map<ValueId, D>,
)
    requires
        0 <= k <= n <= insts.len(),
        forall|i: int|
            k <= i < insts.len() ==> !((#[trigger] insts[i]).kind is Phi) || insts[i].result
                is None,
    ensures
        phis_assigned(insts, n, pred, env) == phis_assigned(insts, k, pred, env),
    decreases n,
{
    if n > k {
        lemma_assigned_by_prefix(insts, k, n - 1, pred, env);
        assert(!(insts[n - 1].kind is Phi) || insts[n - 1].result is None);
    }
}

/// What stands behind the first `n` instructions does not matter to them.
pub proof fn lemma_assigned_in_prefix<D>(
    a: Seq<InstView>,
    b: Seq<InstView>,
    n: int,
    pred: BlockId,
    env: Map<ValueId, D>,
)
    requires
        n <= a.len(),
        n <= b.len(),
        forall|i: int| 0 <= i < n ==> #[trigger] a[i] == b[i],
    ensures
        phis_assigned(a, n, pred, env) == phis_assigned(b, n, pred, env),
    decreases n,
{
    if n > 0 {
        lemma_assigned_in_prefix(a, b, n - 1, pred, env);
        assert(a[n - 1] == b[n - 1]);
    }
}

/// Empty slots do nothing.
pub proof fn lemma_nothing_executed<D, M>(
    m: Meaning<D, M>,
    insts: Seq<InstView>,
    n: int,
    env: Map<ValueId, D>,
    memory: M,
)
    requires
        n <= insts.len(),
        query::all_nops(insts),
    ensures
        executed(m, insts, n, env, memory) == (env, memory),
    decreases n,
{
    if n > 0 {
        lemma_nothing_executed(m, insts, n - 1, env, memory);
        assert(insts[n - 1].kind is Nop);
    }
}

/// Empty slots behind the first `k` instructions do nothing.
pub proof fn lemma_executed_to_the_end<D, M>(
    m: Meaning<D, M>,
    insts: Seq<InstView>,
    k: int,
    n: int,
    env: Map<ValueId, D>,
    memory: M,
)
    requires
        0 <= k <= n <= insts.len(),
        forall|i: int| k <= i < n ==> (#[trigger] insts[i]).kind is Nop,
    ensures
        executed(m, insts, n, env, memory) == executed(m, insts, k, env, memory),
    decreases n,
{
    if n > k {
        lemma_executed_to_the_end(m, insts, k, n - 1, env, memory);
        assert(insts[n - 1].kind is Nop);
    }
}

/// A list that is run behind another one.
pub proof fn lemma_executed_in_turn<D, M>(
    m: Meaning<D, M>,
    a: Seq<InstView>,
    b: Seq<InstView>,
    n: int,
    env: Map<ValueId, D>,
    memory: M,
)
    requires
        0 <= n <= b.len(),
    ensures
        executed(m, a + b, a.len() + n, env, memory) == executed(
            m,
            b,
            n,
            executed(m, a, a.len() as int, env, memory).0,
            executed(m, a, a.len() as int, env, memory).1,
        ),
    decreases n,
{
    if n > 0 {
        lemma_executed_in_turn(m, a, b, n - 1, env, memory);
        assert((a + b)[a.len() + n - 1] == b[n - 1]);
    } else {
        lemma_executed_prefix(m, a + b, a, a.len() as int, env, memory);
    }
}

/// What stands behind the first `n` instructions does not matter to them.
pub proof fn lemma_executed_prefix<D, M>(
    m: Meaning<D, M>,
    a: Seq<InstView>,
    b: Seq<InstView>,
    n: int,
    env: Map<ValueId, D>,
    memory: M,
)
    requires
        n <= a.len(),
        n <= b.len(),
        forall|i: int| 0 <= i < n ==> #[trigger] a[i] == b[i],
    ensures
        executed(m, a, n, env, memory) == executed(m, b, n, env, memory),
    decreases n,
{
    if n > 0 {
        lemma_executed_prefix(m, a, b, n - 1, env, memory);
        assert(a[n - 1] == b[n - 1]);
    }
}

} // verus!
