//! A recursion that is memoized returns what it returned before.
use vstd::prelude::*;

use crate::cfg;
use crate::edit;
use crate::emit;
use crate::ir::{BinaryOp, BlockId, FuncView, InstView, KindView, Terminator, ValueId};
use crate::pass::piecewise_laws;
use crate::pass::range_integer::laws::computes_integers;
use crate::pass::recursive_memoize;
use crate::pass::recursive_memoize::{slot, NamesView, CACHE_ENTRIES};
use crate::pass::simplify_cfg::dead_blocks;
use crate::pass::simplify_cfg::store_laws::after_store;
use crate::pass::wrapper_laws;
use crate::pass::wrapper_laws::{called, cleared, element_of, has_slot, loaded, v, wrapped};
use crate::semantics;
use crate::semantics::{Meaning, State};
use crate::ssa;

verus! {

// ---------------------------------------------------------------------------
// The plain recursion
// ---------------------------------------------------------------------------

/// The instruction neither writes memory nor calls a function.
pub open spec fn is_quiet(kind: KindView) -> bool {
    semantics::is_plain(kind) || kind is Alloca || kind is Load
}

/// A call with two arguments.
pub open spec fn call_shape(name: Seq<char>) -> KindView {
    semantics::shape(emit::call(name, seq![v(0), v(1)]))
}

/// The arguments of a call: the integers that the data stand for.
pub open spec fn pair<D, M>(f: FuncView, m: Meaning<D, M>, a: i32, b: i32) -> Map<ValueId, D> {
    Map::new(
        |x: ValueId| true,
        |x: ValueId|
            if x == f.params[0] {
                m.integer(a)
            } else {
                m.integer(b)
            },
    )
}

/// The meaning under which the function is run by itself: calls give what
/// `calls` holds, and everything else sees the memory `base`. What stands in for
/// the memory says whether all calls so far have returned.
pub open spec fn by_itself<D, M>(
    m: Meaning<D, M>,
    number: spec_fn(D) -> i32,
    base: M,
    calls: Map<(i32, i32), D>,
) -> Meaning<D, bool> {
    Meaning {
        constant: m.constant,
        global: m.global,
        truth: m.truth,
        apply: |kind: KindView, data: Seq<D>, fine: bool|
            match kind {
                KindView::Call { .. } => if calls.contains_key((number(data[0]), number(data[1]))) {
                    (calls[(number(data[0]), number(data[1]))], fine)
                } else {
                    (m.integer(0), false)
                },
                _ => ((m.apply)(kind, data, base).0, fine),
            },
    }
}

/// What the recursion returns, without a cache, for the arguments for which it is
/// at most `k` calls deep.
pub open spec fn level<D, M>(
    f: FuncView,
    m: Meaning<D, M>,
    number: spec_fn(D) -> i32,
    base: M,
    k: nat,
) -> Map<(i32, i32), D>
    decreases k,
{
    if k == 0 {
        Map::empty()
    } else {
        outcomes(f, m, by_itself(m, number, base, level(f, m, number, base, (k - 1) as nat)))
    }
}

/// What the runs give, for the arguments for which they return.
pub open spec fn outcomes<D, M>(f: FuncView, m: Meaning<D, M>, p: Meaning<D, bool>) -> Map<
    (i32, i32),
    D,
> {
    Map::new(
        |q: (i32, i32)| exists|d: D| #[trigger] gives(f, p, pair(f, m, q.0, q.1), d),
        |q: (i32, i32)| choose|d: D| #[trigger] gives(f, p, pair(f, m, q.0, q.1), d),
    )
}

/// What the recursion returns, without a cache, where it is at most `k` calls
/// deep.
pub open spec fn recursion<D, M>(
    f: FuncView,
    m: Meaning<D, M>,
    number: spec_fn(D) -> i32,
    base: M,
    k: nat,
    a: i32,
    b: i32,
) -> Option<D> {
    let known = level(f, m, number, base, k);
    if known.contains_key((a, b)) {
        Some(known[(a, b)])
    } else {
        None
    }
}

/// The run returns the datum, and all its calls have returned.
pub open spec fn gives<D>(
    f: FuncView,
    p: Meaning<D, bool>,
    args: Map<ValueId, D>,
    d: D,
) -> bool {
    semantics::yields(f, p, args, true, State::Returned { value: Some(d), memory: true })
}

/// The meaning under which a run has calls that are less than `k` deep.
pub open spec fn shallow<D, M>(
    f: FuncView,
    m: Meaning<D, M>,
    number: spec_fn(D) -> i32,
    base: M,
    k: nat,
) -> Meaning<D, bool> {
    by_itself(m, number, base, level(f, m, number, base, k))
}

// ---------------------------------------------------------------------------
// Runs under two meanings
// ---------------------------------------------------------------------------

/// Where the plain run has all its calls return, the other meaning gives the same
/// data, and keeps its memory in order.
pub open spec fn agrees<D, N>(
    f: FuncView,
    p: Meaning<D, bool>,
    q: Meaning<D, N>,
    ok: spec_fn(N) -> bool,
) -> bool {
    &&& p.constant == q.constant
    &&& p.global == q.global
    &&& p.truth == q.truth
    &&& forall|kind: KindView, data: Seq<D>| !(#[trigger] (p.apply)(kind, data, false)).1
    &&& forall|kind: KindView, data: Seq<D>, x: N|
        (is_quiet(kind) || (kind == call_shape(f.name) && data.len() == 2)) && ok(x) && (p.apply)(
            kind,
            data,
            true,
        ).1 ==> (#[trigger] (q.apply)(kind, data, x)).0 == (p.apply)(kind, data, true).0 && ok(
            (q.apply)(kind, data, x).1,
        )
}

/// The instruction is one of a recursion without effects.
pub open spec fn is_pure(f: FuncView, inst: InstView) -> bool {
    &&& !recursive_memoize::is_impure(f, inst)
    &&& inst.kind matches KindView::Call { args, .. } ==> args.len() == 2
}

/// All instructions that control reaches are ones of a recursion without effects.
pub open spec fn all_pure(f: FuncView) -> bool {
    forall|b: BlockId, i: int|
        f.has_inst(b, i) && cfg::reachable(f, b) ==> is_pure(f, #[trigger] f.inst(b, i))
}

proof fn lemma_shape(f: FuncView, inst: InstView)
    requires
        is_pure(f, inst),
        !(inst.kind is Phi),
        !(inst.kind is Nop),
    ensures
        is_quiet(semantics::shape(inst.kind)) || (semantics::shape(inst.kind) == call_shape(f.name)
            && edit::operands(inst.kind).len() == 2),
{
    if let KindView::Call { name, args } = inst.kind {
        let g = |x: ValueId| ValueId(0);
        assert(args.map_values(g) =~= seq![v(0), v(1)].map_values(g));
    }
}

proof fn lemma_executed<D, N>(
    f: FuncView,
    p: Meaning<D, bool>,
    q: Meaning<D, N>,
    ok: spec_fn(N) -> bool,
    insts: Seq<InstView>,
    n: int,
    env: Map<ValueId, D>,
    x: N,
)
    requires
        agrees(f, p, q, ok),
        ok(x),
        n <= insts.len(),
        forall|i: int| 0 <= i < insts.len() ==> is_pure(f, #[trigger] insts[i]),
        semantics::executed(p, insts, n, env, true).1,
    ensures
        semantics::executed(q, insts, n, env, x).0 == semantics::executed(p, insts, n, env, true).0,
        ok(semantics::executed(q, insts, n, env, x).1),
    decreases n,
{
    if n > 0 {
        let inst = insts[n - 1];
        assert(is_pure(f, inst));
        let (before, fine) = semantics::executed(p, insts, n - 1, env, true);
        let data = edit::operands(inst.kind).map_values(|w: ValueId| before[w]);
        let s = semantics::shape(inst.kind);
        if !fine {
            assert(!((p.apply)(s, data, false)).1);
        }
        lemma_executed(f, p, q, ok, insts, n - 1, env, x);
        let y = semantics::executed(q, insts, n - 1, env, x).1;
        if !(inst.kind is Phi) && !(inst.kind is Nop) {
            lemma_shape(f, inst);
            assert(ok((q.apply)(s, data, y).1));
        }
    }
}

/// The state of the other run that goes with one of the plain run.
pub open spec fn goes_along<D, N>(
    f: FuncView,
    ok: spec_fn(N) -> bool,
    s: State<D, bool>,
    t: State<D, N>,
) -> bool {
    match (s, t) {
        (
            State::Running { block, env, memory },
            State::Running { block: other, env: data, memory: x },
        ) => memory && block == other && env == data && ok(x) && f.has_block(block)
            && cfg::reachable(f, block),
        (
            State::Returned { value, memory },
            State::Returned { value: other, memory: x },
        ) => memory && value == other && ok(x),
        (State::Stuck, State::Stuck) => true,
        _ => false,
    }
}

/// Not all calls have returned.
pub open spec fn is_broken<D>(s: State<D, bool>) -> bool {
    match s {
        State::Running { memory, .. } => !memory,
        State::Returned { memory, .. } => !memory,
        State::Stuck => false,
    }
}

proof fn lemma_stays_broken<D>(
    p: Meaning<D, bool>,
    insts: Seq<InstView>,
    n: int,
    env: Map<ValueId, D>,
)
    requires
        forall|kind: KindView, data: Seq<D>| !(#[trigger] (p.apply)(kind, data, false)).1,
    ensures
        !semantics::executed(p, insts, n, env, false).1,
    decreases n,
{
    if n > 0 {
        lemma_stays_broken(p, insts, n - 1, env);
        let before = semantics::executed(p, insts, n - 1, env, false).0;
        let kind = insts[n - 1].kind;
        let data = edit::operands(kind).map_values(|w: ValueId| before[w]);
        assert(!((p.apply)(semantics::shape(kind), data, false)).1);
    }
}

proof fn lemma_step<D, N>(
    f: FuncView,
    p: Meaning<D, bool>,
    q: Meaning<D, N>,
    ok: spec_fn(N) -> bool,
    s: State<D, bool>,
    t: State<D, N>,
)
    requires
        f.wf(),
        all_pure(f),
        agrees(f, p, q, ok),
        goes_along(f, ok, s, t),
        !is_broken(semantics::step(f, p, s)) || semantics::step(f, p, s) is Stuck,
    ensures
        goes_along(f, ok, semantics::step(f, p, s), semantics::step(f, q, t)) || semantics::step(
            f,
            p,
            s,
        ) is Stuck,
{
    if let State::Running { block, env, memory } = s {
        let x = t->Running_memory;
        let insts = f.block(block).insts;
        let (after, fine) = semantics::executed(p, insts, insts.len() as int, env, true);
        assert forall|i: int| 0 <= i < insts.len() implies is_pure(f, #[trigger] insts[i]) by {
            assert(f.has_inst(block, i));
            assert(is_pure(f, f.inst(block, i)));
        }
        if f.terminator(block) is Some {
            assert(fine);
            lemma_executed(f, p, q, ok, insts, insts.len() as int, env, x);
            match f.terminator(block) {
                Some(Terminator::Jump(target)) => {
                    assert(cfg::succ_list(f.terminator(block))[0] == target);
                    assert(cfg::edge(f, block, target));
                    ssa::lemma_reachable_next(f, block, target);
                },
                Some(Terminator::Branch { cond, then_target, else_target }) => {
                    let target = if (p.truth)(after[cond]) {
                        then_target
                    } else {
                        else_target
                    };
                    let list = cfg::succ_list(f.terminator(block));
                    assert(list.contains(then_target) && list.contains(else_target)) by {
                        assert(list[0] == then_target);
                        assert(list[list.len() - 1] == else_target);
                    }
                    assert(cfg::edge(f, block, target));
                    ssa::lemma_reachable_next(f, block, target);
                },
                _ => {},
            }
        }
    }
}

/// A run under the other meaning goes along with a plain one whose calls all
/// return.
proof fn lemma_along<D, N>(
    f: FuncView,
    p: Meaning<D, bool>,
    q: Meaning<D, N>,
    ok: spec_fn(N) -> bool,
    s: State<D, bool>,
    t: State<D, N>,
    n: nat,
)
    requires
        f.wf(),
        all_pure(f),
        agrees(f, p, q, ok),
        goes_along(f, ok, s, t),
        semantics::steps(f, p, s, n) is Returned,
        !is_broken(semantics::steps(f, p, s, n)),
    ensures
        goes_along(f, ok, semantics::steps(f, p, s, n), semantics::steps(f, q, t, n)),
    decreases n,
{
    if n > 0 {
        let s1 = semantics::step(f, p, s);
        let t1 = semantics::step(f, q, t);
        semantics::lemma_steps_add(f, p, s, 1, (n - 1) as nat);
        semantics::lemma_steps_add(f, q, t, 1, (n - 1) as nat);
        semantics::lemma_few_steps(f, p, s);
        semantics::lemma_few_steps(f, q, t);
        if is_broken(s1) {
            lemma_broken(f, p, s1, (n - 1) as nat);
        }
        lemma_step(f, p, q, ok, s, t);
        if s1 is Stuck {
            lemma_stuck(f, p, (n - 1) as nat);
        }
        lemma_along(f, p, q, ok, s1, t1, (n - 1) as nat);
    }
}

proof fn lemma_stuck<D>(f: FuncView, p: Meaning<D, bool>, n: nat)
    ensures
        semantics::steps(f, p, State::Stuck, n) is Stuck,
    decreases n,
{
    if n > 0 {
        lemma_stuck(f, p, (n - 1) as nat);
    }
}

proof fn lemma_broken<D>(f: FuncView, p: Meaning<D, bool>, s: State<D, bool>, n: nat)
    requires
        is_broken(s),
        forall|kind: KindView, data: Seq<D>| !(#[trigger] (p.apply)(kind, data, false)).1,
    ensures
        is_broken(semantics::steps(f, p, s, n)) || semantics::steps(f, p, s, n) is Stuck,
    decreases n,
{
    if n > 0 {
        lemma_broken(f, p, s, (n - 1) as nat);
        let t = semantics::steps(f, p, s, (n - 1) as nat);
        if let State::Running { block, env, memory } = t {
            let insts = f.block(block).insts;
            lemma_stays_broken(p, insts, insts.len() as int, env);
        }
    }
}

// ---------------------------------------------------------------------------
// The recursion is a function of its arguments
// ---------------------------------------------------------------------------

/// A deeper recursion returns the same.
proof fn lemma_deeper<D, M>(
    f: FuncView,
    m: Meaning<D, M>,
    number: spec_fn(D) -> i32,
    base: M,
    j: nat,
    k: nat,
    a: i32,
    b: i32,
)
    requires
        f.wf(),
        all_pure(f),
        j <= k,
        recursion(f, m, number, base, j, a, b) is Some,
    ensures
        recursion(f, m, number, base, k, a, b) == recursion(f, m, number, base, j, a, b),
    decreases j,
{
    if j < k {
        let p = shallow(f, m, number, base, (j - 1) as nat);
        let q = shallow(f, m, number, base, (k - 1) as nat);
        let ok = |x: bool| x;
        assert(agrees(f, p, q, ok)) by {
            assert forall|kind: KindView, data: Seq<D>, x: bool|
                (is_quiet(kind) || (kind == call_shape(f.name) && data.len() == 2)) && ok(x) && (
                p.apply)(kind, data, true).1 implies (#[trigger] (q.apply)(kind, data, x)).0 == (
            p.apply)(kind, data, true).0 && ok((q.apply)(kind, data, x).1) by {
                if kind is Call {
                    lemma_deeper(
                        f,
                        m,
                        number,
                        base,
                        (j - 1) as nat,
                        (k - 1) as nat,
                        number(data[0]),
                        number(data[1]),
                    );
                }
            }
        }
        let args = pair(f, m, a, b);
        let d = lemma_gives(f, m, number, base, j, a, b);
        lemma_gives_along(f, p, q, ok, args, true, d);
        lemma_one_datum(f, m, number, base, k, a, b, d);
    }
}

/// What the recursion returns is what its run gives.
proof fn lemma_gives<D, M>(
    f: FuncView,
    m: Meaning<D, M>,
    number: spec_fn(D) -> i32,
    base: M,
    k: nat,
    a: i32,
    b: i32,
) -> (d: D)
    requires
        recursion(f, m, number, base, k, a, b) is Some,
    ensures
        k > 0,
        recursion(f, m, number, base, k, a, b) == Some(d),
        gives(f, shallow(f, m, number, base, (k - 1) as nat), pair(f, m, a, b), d),
{
    recursion(f, m, number, base, k, a, b)->Some_0
}

proof fn lemma_one_datum<D, M>(
    f: FuncView,
    m: Meaning<D, M>,
    number: spec_fn(D) -> i32,
    base: M,
    k: nat,
    a: i32,
    b: i32,
    d: D,
)
    requires
        k > 0,
        gives(f, shallow(f, m, number, base, (k - 1) as nat), pair(f, m, a, b), d),
    ensures
        recursion(f, m, number, base, k, a, b) == Some(d),
{
    let p = shallow(f, m, number, base, (k - 1) as nat);
    let args = pair(f, m, a, b);
    assert(gives(f, p, args, d));
    let known = level(f, m, number, base, k);
    assert(known == outcomes(f, m, p));
    let q = (a, b);
    assert(gives(f, p, pair(f, m, q.0, q.1), d));
    assert(known.contains_key(q));
    let e = known[(a, b)];
    assert(gives(f, p, args, e));
    let r = State::<D, bool>::Returned { value: Some(d), memory: true };
    let s = semantics::start(f, p, args, true);
    let n = choose|n: nat| #[trigger] semantics::steps(f, p, s, n) == r;
    piecewise_laws::lemma_only_outcome(
        f,
        p,
        args,
        true,
        n,
        r,
        State::Returned { value: Some(e), memory: true },
    );
}

/// A run under the other meaning returns what the plain run gives.
proof fn lemma_gives_along<D, N>(
    f: FuncView,
    p: Meaning<D, bool>,
    q: Meaning<D, N>,
    ok: spec_fn(N) -> bool,
    args: Map<ValueId, D>,
    x: N,
    d: D,
) -> (y: N)
    requires
        f.wf(),
        all_pure(f),
        agrees(f, p, q, ok),
        ok(x),
        gives(f, p, args, d),
    ensures
        ok(y),
        semantics::yields(f, q, args, x, State::Returned { value: Some(d), memory: y }),
{
    let r = State::<D, bool>::Returned { value: Some(d), memory: true };
    let s = semantics::start(f, p, args, true);
    let t = semantics::start(f, q, args, x);
    let n = choose|n: nat| #[trigger] semantics::steps(f, p, s, n) == r;
    dead_blocks::lemma_entry_reachable(f);
    assert(semantics::initial(f, p, args) =~= semantics::initial(f, q, args));
    lemma_along(f, p, q, ok, s, t, n);
    let u = semantics::steps(f, q, t, n);
    assert(u == (State::Returned { value: Some(d), memory: u->Returned_memory }));
    u->Returned_memory
}

// ---------------------------------------------------------------------------
// The tables
// ---------------------------------------------------------------------------

/// What a memory holds for the wrapper.
#[verifier::reject_recursive_types(D)]
#[verifier::reject_recursive_types(M)]
pub struct Tables<D, M> {
    /// The depth of the recursion.
    pub depth: spec_fn(M) -> D,
    pub tag: spec_fn(M, int) -> D,
    pub value: spec_fn(M, int) -> D,
    /// How often the body has begun to run for the arguments of a slot.
    pub runs: spec_fn(M, int) -> nat,
    /// The memory is, to the body, the one that the outermost call began with.
    pub unchanged: spec_fn(M) -> bool,
    /// The memory in which the body begins to run for the arguments.
    pub begun: spec_fn(M, i32, i32) -> M,
}

pub open spec fn is_place(i: int) -> bool {
    0 <= i < CACHE_ENTRIES
}

/// The second memory holds the same as the first, but for the depth.
pub open spec fn same_but_depth<D, M>(t: Tables<D, M>, x: M, y: M) -> bool {
    &&& (t.unchanged)(x) ==> (t.unchanged)(y)
    &&& forall|i: int|
        is_place(i) ==> #[trigger] (t.tag)(y, i) == (t.tag)(x, i) && (t.value)(y, i) == (t.value)(
            x,
            i,
        ) && (t.runs)(y, i) == (t.runs)(x, i)
}

/// The second memory holds the same as the first, but for the slot `p`.
pub open spec fn same_but<D, M>(t: Tables<D, M>, p: int, x: M, y: M) -> bool {
    &&& (t.unchanged)(x) ==> (t.unchanged)(y)
    &&& (t.depth)(y) == (t.depth)(x)
    &&& forall|i: int|
        is_place(i) && i != p ==> #[trigger] (t.tag)(y, i) == (t.tag)(x, i) && (t.value)(y, i) == (
        t.value)(x, i)
    &&& forall|i: int| is_place(i) ==> #[trigger] (t.runs)(y, i) == (t.runs)(x, i)
}

/// The address of a slot.
pub open spec fn place_of<D, M>(m: Meaning<D, M>, table: Seq<char>, index: D, memory: M) -> D {
    element_of(m, (m.global)(table), m.integer(0), index, memory)
}

/// Loads and stores of the depth and of the slots do what they are called, and the
/// body sees nothing of them.
pub open spec fn keeps_tables<D, M>(
    m: Meaning<D, M>,
    number: spec_fn(D) -> i32,
    n: NamesView,
    t: Tables<D, M>,
) -> bool {
    &&& forall|x: M| #[trigger] loaded(m, (m.global)(n.depth), x) == ((t.depth)(x), x)
    &&& forall|x: M, d: D|
        (t.depth)(#[trigger] after_store(m, (m.global)(n.depth), d, x)) == d && same_but_depth(
            t,
            x,
            after_store(m, (m.global)(n.depth), d, x),
        )
    &&& forall|x: M|
        ({
            let y = #[trigger] cleared(m, (m.global)(n.tags), x);
            &&& (t.depth)(y) == (t.depth)(x)
            &&& (t.unchanged)(x) ==> (t.unchanged)(y)
            &&& forall|i: int|
                is_place(i) ==> number(#[trigger] (t.tag)(y, i)) == 0 && (t.runs)(y, i) == (t.runs)(
                    x,
                    i,
                )
        })
    &&& forall|i: D, x: M, z: M|
        is_place(number(i) as int) ==> #[trigger] loaded(m, place_of(m, n.tags, i, z), x) == (
            (t.tag)(x, number(i) as int),
            x,
        )
    &&& forall|i: D, x: M, z: M|
        is_place(number(i) as int) ==> #[trigger] loaded(m, place_of(m, n.values, i, z), x) == (
            (t.value)(x, number(i) as int),
            x,
        )
    &&& forall|i: D, x: M, z: M, d: D|
        is_place(number(i) as int) ==> ({
            let y = #[trigger] after_store(m, place_of(m, n.tags, i, z), d, x);
            &&& same_but(t, number(i) as int, x, y)
            &&& (t.tag)(y, number(i) as int) == d
            &&& (t.value)(y, number(i) as int) == (t.value)(x, number(i) as int)
        })
    &&& forall|i: D, x: M, z: M, d: D|
        is_place(number(i) as int) ==> ({
            let y = #[trigger] after_store(m, place_of(m, n.values, i, z), d, x);
            &&& same_but(t, number(i) as int, x, y)
            &&& (t.value)(y, number(i) as int) == d
            &&& (t.tag)(y, number(i) as int) == (t.tag)(x, number(i) as int)
        })
}

/// Sums and products that are integers are what they are called.
pub open spec fn adds_and_multiplies<D, M>(m: Meaning<D, M>, number: spec_fn(D) -> i32) -> bool {
    &&& forall|v: ValueId, w: ValueId, a: D, b: D, memory: M|
        i32::MIN <= number(a) + number(b) <= i32::MAX ==> #[trigger] m.of_two(
            BinaryOp::Iadd,
            v,
            w,
            a,
            b,
            memory,
        ) == m.integer((number(a) + number(b)) as i32)
    &&& forall|v: ValueId, w: ValueId, a: D, b: D, memory: M|
        i32::MIN <= number(a) * number(b) <= i32::MAX ==> #[trigger] m.of_two(
            BinaryOp::Imul,
            v,
            w,
            a,
            b,
            memory,
        ) == m.integer((number(a) * number(b)) as i32)
}

/// The slot is the one of the arguments.
pub open spec fn is_slot_of(i: int, a: i32, b: i32) -> bool {
    has_slot(a, b) && i == slot(a as int, b as int)
}

/// Calls of the function run the wrapper, and calls of the body run the function;
/// what the function does besides sees the memory of the outermost call and leaves
/// the tables alone.
pub open spec fn runs_calls<D, M>(
    f: FuncView,
    m: Meaning<D, M>,
    number: spec_fn(D) -> i32,
    n: NamesView,
    t: Tables<D, M>,
    base: M,
) -> bool {
    &&& forall|a: D, b: D, x: M, d: D, y: M|
        #[trigger] semantics::yields(
            f,
            m,
            pair(f, m, number(a), number(b)),
            (t.begun)(x, number(a), number(b)),
            State::Returned { value: Some(d), memory: y },
        ) ==> #[trigger] called(m, n.body, a, b, x) == (d, y)
    &&& forall|a: D, b: D, x: M|
        #[trigger] called(m, f.name, a, b, x) == wrapped(
            m,
            number,
            n,
            m.integer(number(a)),
            m.integer(number(b)),
            x,
        )
    &&& forall|x: M, a: i32, b: i32|
        ({
            let y = #[trigger] (t.begun)(x, a, b);
            &&& (t.depth)(y) == (t.depth)(x)
            &&& (t.unchanged)(x) ==> (t.unchanged)(y)
            &&& forall|i: int|
                is_place(i) ==> #[trigger] (t.tag)(y, i) == (t.tag)(x, i) && (t.value)(y, i) == (
                t.value)(x, i) && (t.runs)(y, i) == (t.runs)(x, i) + if is_slot_of(i, a, b) {
                    1nat
                } else {
                    0nat
                }
        })
    &&& forall|kind: KindView, data: Seq<D>, x: M|
        is_quiet(kind) && (t.unchanged)(x) ==> ({
            let (d, y) = #[trigger] (m.apply)(kind, data, x);
            &&& d == (m.apply)(kind, data, base).0
            &&& (t.depth)(y) == (t.depth)(x)
            &&& same_but_depth(t, x, y)
        })
}

pub open spec fn is_set<D, M>(
    number: spec_fn(D) -> i32,
    t: Tables<D, M>,
    x: M,
    i: int,
) -> bool {
    number((t.tag)(x, i)) != 0
}

/// Where a tag is set, the value is what the recursion returns.
pub open spec fn is_right<D, M>(
    f: FuncView,
    m: Meaning<D, M>,
    number: spec_fn(D) -> i32,
    t: Tables<D, M>,
    base: M,
    x: M,
) -> bool {
    forall|a: i32, b: i32|
        has_slot(a, b) && is_set(number, t, x, #[trigger] slot(a as int, b as int)) ==> exists|
            k: nat,
        | #[trigger]
            recursion(f, m, number, base, k, a, b) == Some(
                (t.value)(x, slot(a as int, b as int)),
            )
}

/// Tags stay set, and the body has begun to run once for the slot if its tag was
/// set in between, and else not at all.
pub open spec fn counted<D, M>(
    number: spec_fn(D) -> i32,
    t: Tables<D, M>,
    x: M,
    y: M,
    i: int,
) -> bool {
    let fresh: nat = if is_set(number, t, y, i) && !is_set(number, t, x, i) {
        1
    } else {
        0
    };
    &&& is_set(number, t, x, i) ==> is_set(number, t, y, i)
    &&& (t.runs)(y, i) == (t.runs)(x, i) + fresh
}

/// Between the two memories the body has begun to run once for each slot whose
/// tag was set in between, for no other slot, and only for arguments for which
/// the recursion is at most `k` calls deep. All values stay right.
pub open spec fn progresses<D, M>(
    f: FuncView,
    m: Meaning<D, M>,
    number: spec_fn(D) -> i32,
    t: Tables<D, M>,
    base: M,
    k: nat,
    x: M,
    y: M,
) -> bool {
    &&& (t.unchanged)(y)
    &&& (t.depth)(y) == (t.depth)(x)
    &&& is_right(f, m, number, t, base, y)
    &&& forall|i: int|
        is_place(i) ==> #[trigger] counted(number, t, x, y, i)
    &&& forall|a: i32, b: i32|
        has_slot(a, b) && is_set(number, t, y, #[trigger] slot(a as int, b as int)) && !is_set(
            number,
            t,
            x,
            slot(a as int, b as int),
        ) ==> recursion(f, m, number, base, k, a, b) is Some
}

/// The laws that the proof rests on.
pub open spec fn is_memory_of<D, M>(
    f: FuncView,
    m: Meaning<D, M>,
    number: spec_fn(D) -> i32,
    n: NamesView,
    t: Tables<D, M>,
    base: M,
) -> bool {
    &&& f.wf()
    &&& all_pure(f)
    &&& m.computes_apart_from_memory()
    &&& m.has_booleans()
    &&& computes_integers(m, number)
    &&& adds_and_multiplies(m, number)
    &&& keeps_tables(m, number, n, t)
    &&& runs_calls(f, m, number, n, t, base)
}

proof fn lemma_progress_adds<D, M>(
    f: FuncView,
    m: Meaning<D, M>,
    number: spec_fn(D) -> i32,
    t: Tables<D, M>,
    base: M,
    k: nat,
    x: M,
    y: M,
    z: M,
)
    requires
        progresses(f, m, number, t, base, k, x, y),
        progresses(f, m, number, t, base, k, y, z),
    ensures
        progresses(f, m, number, t, base, k, x, z),
{
    assert forall|i: int| is_place(i) implies #[trigger] counted(number, t, x, z, i) by {
        assert(counted(number, t, x, y, i) && counted(number, t, y, z, i));
    }
    assert forall|a: i32, b: i32|
        has_slot(a, b) && is_set(number, t, z, #[trigger] slot(a as int, b as int)) && !is_set(
            number,
            t,
            x,
            slot(a as int, b as int),
        ) implies recursion(f, m, number, base, k, a, b) is Some by {
        if is_set(number, t, y, slot(a as int, b as int)) {
        }
    }
}

/// A run of the body returns what the recursion returns.
proof fn lemma_body<D, M>(
    f: FuncView,
    m: Meaning<D, M>,
    number: spec_fn(D) -> i32,
    n: NamesView,
    t: Tables<D, M>,
    base: M,
    k: nat,
    a: D,
    b: D,
    x: M,
) -> (y: M)
    requires
        is_memory_of(f, m, number, n, t, base),
        recursion(f, m, number, base, k, number(a), number(b)) is Some,
        (t.unchanged)(x),
        is_right(f, m, number, t, base, x),
        1 <= number((t.depth)(x)),
        number((t.depth)(x)) + k <= i32::MAX,
    ensures
        k > 0,
        called(m, n.body, a, b, x) == (
            recursion(f, m, number, base, k, number(a), number(b))->Some_0,
            y,
        ),
        progresses(
            f,
            m,
            number,
            t,
            base,
            (k - 1) as nat,
            (t.begun)(x, number(a), number(b)),
            y,
        ),
    decreases k, 0int,
{
    let d = lemma_gives(f, m, number, base, k, number(a), number(b));
    let j = (k - 1) as nat;
    let p = shallow(f, m, number, base, j);
    let begun = (t.begun)(x, number(a), number(b));
    let ok = |z: M| progresses(f, m, number, t, base, j, begun, z);
    assert(is_right(f, m, number, t, base, begun)) by {
        assert forall|c: i32, e: i32|
            has_slot(c, e) && is_set(number, t, begun, #[trigger] slot(c as int, e as int))
            implies exists|l: nat| #[trigger]
            recursion(f, m, number, base, l, c, e) == Some(
                (t.value)(begun, slot(c as int, e as int)),
            ) by {
            recursive_memoize::slots_are_distinct(c as int, e as int, c as int, e as int);
            assert((t.tag)(begun, slot(c as int, e as int)) == (t.tag)(
                x,
                slot(c as int, e as int),
            ));
            assert(is_set(number, t, x, slot(c as int, e as int)));
        }
    }
    assert(ok(begun));
    assert(agrees(f, p, m, ok)) by {
        assert forall|kind: KindView, data: Seq<D>, z: M|
            (is_quiet(kind) || (kind == call_shape(f.name) && data.len() == 2)) && ok(z) && (
            p.apply)(kind, data, true).1 implies (#[trigger] (m.apply)(kind, data, z)).0 == (
        p.apply)(kind, data, true).0 && ok((m.apply)(kind, data, z).1) by {
            if is_quiet(kind) {
                let w = (m.apply)(kind, data, z).1;
                lemma_quiet(f, m, number, t, base, j, begun, z, w);
            } else {
                assert(data =~= seq![data[0], data[1]]);
                assert((m.apply)(kind, data, z) == called(m, f.name, data[0], data[1], z));
                let w = lemma_call(f, m, number, n, t, base, j, data[0], data[1], z);
                lemma_progress_adds(f, m, number, t, base, j, begun, z, w);
            }
        }
    }
    lemma_gives_along(f, p, m, ok, pair(f, m, number(a), number(b)), begun, d)
}

proof fn lemma_quiet<D, M>(
    f: FuncView,
    m: Meaning<D, M>,
    number: spec_fn(D) -> i32,
    t: Tables<D, M>,
    base: M,
    k: nat,
    x: M,
    y: M,
    z: M,
)
    requires
        progresses(f, m, number, t, base, k, x, y),
        same_but_depth(t, y, z),
        (t.depth)(z) == (t.depth)(y),
    ensures
        progresses(f, m, number, t, base, k, x, z),
{
    assert forall|i: int| is_place(i) implies is_set(number, t, z, i) == is_set(number, t, y, i)
        && (t.value)(z, i) == (t.value)(y, i) && (t.runs)(z, i) == (t.runs)(y, i)
        && #[trigger] counted(number, t, x, z, i) by {
        assert((t.tag)(z, i) == (t.tag)(y, i));
        assert(counted(number, t, x, y, i));
    }
    lemma_right_kept(f, m, number, t, base, y, z);
    assert forall|a: i32, b: i32|
        has_slot(a, b) && is_set(number, t, z, #[trigger] slot(a as int, b as int)) && !is_set(
            number,
            t,
            x,
            slot(a as int, b as int),
        ) implies recursion(f, m, number, base, k, a, b) is Some by {
        recursive_memoize::slots_are_distinct(a as int, b as int, a as int, b as int);
        assert((t.tag)(z, slot(a as int, b as int)) == (t.tag)(y, slot(a as int, b as int)));
    }
}

proof fn lemma_right_kept<D, M>(
    f: FuncView,
    m: Meaning<D, M>,
    number: spec_fn(D) -> i32,
    t: Tables<D, M>,
    base: M,
    y: M,
    z: M,
)
    requires
        is_right(f, m, number, t, base, y),
        same_but_depth(t, y, z),
    ensures
        is_right(f, m, number, t, base, z),
{
    assert forall|c: i32, e: i32|
        has_slot(c, e) && is_set(number, t, z, #[trigger] slot(c as int, e as int))
        implies exists|l: nat| #[trigger]
        recursion(f, m, number, base, l, c, e) == Some((t.value)(z, slot(c as int, e as int))) by {
        recursive_memoize::slots_are_distinct(c as int, e as int, c as int, e as int);
        assert((t.tag)(z, slot(c as int, e as int)) == (t.tag)(y, slot(c as int, e as int)));
        assert(is_set(number, t, y, slot(c as int, e as int)));
    }
}

/// The index of the slot of the arguments.
proof fn lemma_index<D, M>(
    m: Meaning<D, M>,
    number: spec_fn(D) -> i32,
    a: D,
    b: D,
    memory: M,
)
    requires
        computes_integers(m, number),
        adds_and_multiplies(m, number),
        has_slot(number(a), number(b)),
    ensures
        number(wrapper_laws::index_of(m, a, b, memory)) == slot(number(a) as int, number(b) as int),
        is_place(slot(number(a) as int, number(b) as int)),
{
    let limit = m.integer(recursive_memoize::SECOND_PARAM_LIMIT);
    let (x, y) = (number(a) as int, number(b) as int);
    recursive_memoize::slots_are_distinct(x, y, x, y);
    assert(number(limit) == 1024);
    assert(0 <= x * 1024 <= 65536);
    let row = m.of_two(BinaryOp::Imul, v(0), v(19), a, limit, memory);
    assert(row == m.integer((x * 1024) as i32));
    assert(number(row) == x * 1024);
}

/// What a call of the wrapper does behind its first part, which has counted the
/// depth: it looks the arguments up, or hands them to the body.
proof fn lemma_inside<D, M>(
    f: FuncView,
    m: Meaning<D, M>,
    number: spec_fn(D) -> i32,
    n: NamesView,
    t: Tables<D, M>,
    base: M,
    k: nat,
    a: D,
    b: D,
    x: M,
) -> (y: M)
    requires
        is_memory_of(f, m, number, n, t, base),
        recursion(f, m, number, base, k, number(a), number(b)) is Some,
        (t.unchanged)(x),
        is_right(f, m, number, t, base, x),
        1 <= number((t.depth)(x)),
        number((t.depth)(x)) + k <= i32::MAX,
    ensures
        ({
            let r = if has_slot(number(a), number(b)) {
                wrapper_laws::looked_up(m, number, n, a, b, x)
            } else {
                called(m, n.body, a, b, x)
            };
            r == (recursion(f, m, number, base, k, number(a), number(b))->Some_0, y)
        }),
        progresses(f, m, number, t, base, k, x, y),
    decreases k, 1int,
{
    let (c, e) = (number(a), number(b));
    let d = recursion(f, m, number, base, k, c, e)->Some_0;
    lemma_gives(f, m, number, base, k, c, e);
    if k > 1 && recursion(f, m, number, base, (k - 1) as nat, c, e) is Some {
        lemma_deeper(f, m, number, base, (k - 1) as nat, k, c, e);
        let y = lemma_inside(f, m, number, n, t, base, (k - 1) as nat, a, b, x);
        lemma_progress_deeper(f, m, number, t, base, (k - 1) as nat, k, x, y);
        y
    } else if !has_slot(c, e) {
        let y = lemma_body(f, m, number, n, t, base, k, a, b, x);
        let begun = (t.begun)(x, c, e);
        lemma_progress_deeper(f, m, number, t, base, (k - 1) as nat, k, begun, y);
        assert forall|i: int| is_place(i) implies is_set(number, t, x, i) == is_set(
            number,
            t,
            begun,
            i,
        ) && #[trigger] (t.runs)(x, i) == (t.runs)(begun, i) by {
            assert((t.tag)(begun, i) == (t.tag)(x, i));
        }
        lemma_progress_from(f, m, number, t, base, k, begun, x, y);
        y
    } else {
        let q = slot(c as int, e as int);
        let index = wrapper_laws::index_of(m, a, b, x);
        lemma_index(m, number, a, b, x);
        let tag_slot = place_of(m, n.tags, index, x);
        let value_slot = place_of(m, n.values, index, x);
        assert(loaded(m, tag_slot, x) == ((t.tag)(x, q), x));
        if is_set(number, t, x, q) {
            assert(loaded(m, value_slot, x) == ((t.value)(x, q), x));
            let l = choose|l: nat| #[trigger]
                recursion(f, m, number, base, l, c, e) == Some((t.value)(x, q));
            if l <= k {
                lemma_deeper(f, m, number, base, l, k, c, e);
            } else {
                lemma_deeper(f, m, number, base, k, l, c, e);
            }
            x
        } else {
            let behind = lemma_body(f, m, number, n, t, base, k, a, b, x);
            let begun = (t.begun)(x, c, e);
            assert((t.tag)(begun, q) == (t.tag)(x, q));
            assert((t.runs)(begun, q) == (t.runs)(x, q) + 1);
            assert(!is_set(number, t, behind, q)) by {
                if is_set(number, t, behind, q) {
                    assert(!is_set(number, t, begun, q));
                    assert(recursion(f, m, number, base, (k - 1) as nat, c, e) is Some);
                    lemma_gives(f, m, number, base, (k - 1) as nat, c, e);
                }
            }
            assert(counted(number, t, begun, behind, q));
            assert((t.runs)(behind, q) == (t.runs)(begun, q));
            let kept = after_store(m, value_slot, d, behind);
            let y = after_store(m, tag_slot, m.integer(1), kept);
            assert(number(m.integer(1)) == 1);
            assert(is_set(number, t, y, q));
            lemma_tagged(f, m, number, t, base, k, c, e, x, behind, kept, y);
            y
        }
    }
}

proof fn lemma_progress_deeper<D, M>(
    f: FuncView,
    m: Meaning<D, M>,
    number: spec_fn(D) -> i32,
    t: Tables<D, M>,
    base: M,
    j: nat,
    k: nat,
    x: M,
    y: M,
)
    requires
        f.wf(),
        all_pure(f),
        j <= k,
        progresses(f, m, number, t, base, j, x, y),
    ensures
        progresses(f, m, number, t, base, k, x, y),
{
    assert forall|a: i32, b: i32|
        has_slot(a, b) && is_set(number, t, y, #[trigger] slot(a as int, b as int)) && !is_set(
            number,
            t,
            x,
            slot(a as int, b as int),
        ) implies recursion(f, m, number, base, k, a, b) is Some by {
        lemma_deeper(f, m, number, base, j, k, a, b);
    }
}

/// The same from another memory with the same tags.
proof fn lemma_progress_from<D, M>(
    f: FuncView,
    m: Meaning<D, M>,
    number: spec_fn(D) -> i32,
    t: Tables<D, M>,
    base: M,
    k: nat,
    x: M,
    z: M,
    y: M,
)
    requires
        progresses(f, m, number, t, base, k, x, y),
        (t.depth)(z) == (t.depth)(x),
        forall|i: int|
            is_place(i) ==> is_set(number, t, z, i) == is_set(number, t, x, i) && #[trigger] (
            t.runs)(z, i) == (t.runs)(x, i),
    ensures
        progresses(f, m, number, t, base, k, z, y),
{
    assert forall|i: int| is_place(i) implies #[trigger] counted(number, t, z, y, i) by {
        assert((t.runs)(z, i) == (t.runs)(x, i));
        assert(counted(number, t, x, y, i));
    }
    assert forall|a: i32, b: i32|
        has_slot(a, b) && is_set(number, t, y, #[trigger] slot(a as int, b as int)) && !is_set(
            number,
            t,
            z,
            slot(a as int, b as int),
        ) implies recursion(f, m, number, base, k, a, b) is Some by {
        recursive_memoize::slots_are_distinct(a as int, b as int, a as int, b as int);
        assert((t.runs)(z, slot(a as int, b as int)) == (t.runs)(x, slot(a as int, b as int)));
    }
}

/// The result of the body is kept in its slot.
proof fn lemma_tagged<D, M>(
    f: FuncView,
    m: Meaning<D, M>,
    number: spec_fn(D) -> i32,
    t: Tables<D, M>,
    base: M,
    k: nat,
    c: i32,
    e: i32,
    x: M,
    behind: M,
    kept: M,
    y: M,
)
    requires
        f.wf(),
        all_pure(f),
        k > 0,
        has_slot(c, e),
        recursion(f, m, number, base, k, c, e) == Some((t.value)(kept, slot(c as int, e as int))),
        ({
            let begun = (t.begun)(x, c, e);
            let q = slot(c as int, e as int);
            &&& progresses(f, m, number, t, base, (k - 1) as nat, begun, behind)
            &&& (t.depth)(begun) == (t.depth)(x)
            &&& forall|i: int|
                is_place(i) ==> #[trigger] (t.tag)(begun, i) == (t.tag)(x, i) && (t.runs)(begun, i)
                    == (t.runs)(x, i) + if is_slot_of(i, c, e) {
                    1nat
                } else {
                    0nat
                }
            &&& !is_set(number, t, x, q)
            &&& !is_set(number, t, behind, q)
            &&& same_but(t, q, behind, kept)
            &&& same_but(t, q, kept, y)
            &&& (t.value)(y, q) == (t.value)(kept, q)
            &&& is_set(number, t, y, q)
        }),
    ensures
        progresses(f, m, number, t, base, k, x, y),
{
    let begun = (t.begun)(x, c, e);
    let q = slot(c as int, e as int);
    let j = (k - 1) as nat;
    assert(is_right(f, m, number, t, base, y)) by {
        assert forall|a: i32, b: i32|
            has_slot(a, b) && is_set(number, t, y, #[trigger] slot(a as int, b as int))
            implies exists|l: nat| #[trigger]
            recursion(f, m, number, base, l, a, b) == Some(
                (t.value)(y, slot(a as int, b as int)),
            ) by {
            recursive_memoize::slots_are_distinct(a as int, b as int, c as int, e as int);
            let i = slot(a as int, b as int);
            if i == q {
                assert(recursion(f, m, number, base, k, a, b) == Some((t.value)(y, i)));
            } else {
                assert((t.tag)(y, i) == (t.tag)(kept, i) && (t.tag)(kept, i) == (t.tag)(behind, i));
                assert(is_set(number, t, behind, i));
            }
        }
    }
    assert forall|i: int| is_place(i) implies #[trigger] counted(number, t, x, y, i) by {
        assert((t.runs)(y, i) == (t.runs)(kept, i) && (t.runs)(kept, i) == (t.runs)(behind, i));
        assert((t.tag)(begun, i) == (t.tag)(x, i));
        assert(counted(number, t, begun, behind, i));
        if i != q {
            assert((t.tag)(y, i) == (t.tag)(kept, i) && (t.tag)(kept, i) == (t.tag)(behind, i));
        }
    }
    assert forall|a: i32, b: i32|
        has_slot(a, b) && is_set(number, t, y, #[trigger] slot(a as int, b as int)) && !is_set(
            number,
            t,
            x,
            slot(a as int, b as int),
        ) implies recursion(f, m, number, base, k, a, b) is Some by {
        recursive_memoize::slots_are_distinct(a as int, b as int, c as int, e as int);
        let i = slot(a as int, b as int);
        if i != q {
            assert((t.tag)(y, i) == (t.tag)(kept, i) && (t.tag)(kept, i) == (t.tag)(behind, i));
            assert((t.tag)(begun, i) == (t.tag)(x, i));
            assert(recursion(f, m, number, base, j, a, b) is Some);
            lemma_deeper(f, m, number, base, j, k, a, b);
        }
    }
}

/// A call within the outermost one returns what the recursion returns.
proof fn lemma_call<D, M>(
    f: FuncView,
    m: Meaning<D, M>,
    number: spec_fn(D) -> i32,
    n: NamesView,
    t: Tables<D, M>,
    base: M,
    k: nat,
    a: D,
    b: D,
    x: M,
) -> (y: M)
    requires
        is_memory_of(f, m, number, n, t, base),
        recursion(f, m, number, base, k, number(a), number(b)) is Some,
        (t.unchanged)(x),
        is_right(f, m, number, t, base, x),
        1 <= number((t.depth)(x)),
        number((t.depth)(x)) + k < i32::MAX,
    ensures
        called(m, f.name, a, b, x) == (
            recursion(f, m, number, base, k, number(a), number(b))->Some_0,
            y,
        ),
        progresses(f, m, number, t, base, k, x, y),
    decreases k, 2int,
{
    let (c, e) = (m.integer(number(a)), m.integer(number(b)));
    assert(number(c) == number(a) && number(e) == number(b));
    let depth = (t.depth)(x);
    let at_depth = (m.global)(n.depth);
    assert(loaded(m, at_depth, x) == (depth, x));
    let deeper = m.of_two(BinaryOp::Iadd, v(9), v(3), depth, m.integer(1), x);
    assert(number(m.integer(1)) == 1);
    assert(deeper == m.integer((number(depth) + 1) as i32));
    assert(number(deeper) == number(depth) + 1);
    let inside = after_store(m, at_depth, deeper, x);
    lemma_right_kept(f, m, number, t, base, x, inside);
    let behind = lemma_inside(f, m, number, n, t, base, k, c, e, inside);
    let y = after_store(m, at_depth, depth, behind);
    lemma_restored(f, m, number, t, base, k, x, inside, behind, y);
    y
}

proof fn lemma_restored<D, M>(
    f: FuncView,
    m: Meaning<D, M>,
    number: spec_fn(D) -> i32,
    t: Tables<D, M>,
    base: M,
    k: nat,
    x: M,
    inside: M,
    behind: M,
    y: M,
)
    requires
        same_but_depth(t, x, inside),
        progresses(f, m, number, t, base, k, inside, behind),
        same_but_depth(t, behind, y),
        (t.depth)(y) == (t.depth)(x),
    ensures
        progresses(f, m, number, t, base, k, x, y),
{
    lemma_right_kept(f, m, number, t, base, behind, y);
    assert forall|i: int| is_place(i) implies #[trigger] counted(number, t, x, y, i) by {
        assert((t.tag)(inside, i) == (t.tag)(x, i));
        assert((t.tag)(y, i) == (t.tag)(behind, i));
        assert(counted(number, t, inside, behind, i));
    }
    assert forall|a: i32, b: i32|
        has_slot(a, b) && is_set(number, t, y, #[trigger] slot(a as int, b as int)) && !is_set(
            number,
            t,
            x,
            slot(a as int, b as int),
        ) implies recursion(f, m, number, base, k, a, b) is Some by {
        recursive_memoize::slots_are_distinct(a as int, b as int, a as int, b as int);
        let i = slot(a as int, b as int);
        assert((t.tag)(inside, i) == (t.tag)(x, i));
        assert((t.tag)(y, i) == (t.tag)(behind, i));
    }
}

/// An outermost call of the wrapper returns what the recursion returns by itself,
/// as long as the recursion is not deeper than the depth can be counted. It leaves
/// the depth as it was, and runs the body at most once for the arguments of a slot.
pub proof fn memoized_recursion_returns_the_same<D, M>(
    f: FuncView,
    m: Meaning<D, M>,
    number: spec_fn(D) -> i32,
    n: NamesView,
    t: Tables<D, M>,
    k: nat,
    args: Map<ValueId, D>,
    memory: M,
    out: State<D, M>,
)
    requires
        is_memory_of(f, m, number, n, t, memory),
        (t.unchanged)(memory),
        number((t.depth)(memory)) == 0,
        k < i32::MAX,
        recursion(
            f,
            m,
            number,
            memory,
            k,
            number(args[recursive_memoize::wrapper(f.name, n).params[0]]),
            number(args[recursive_memoize::wrapper(f.name, n).params[1]]),
        ) is Some,
    ensures
        ({
            let w = recursive_memoize::wrapper(f.name, n);
            let (a, b) = (args[w.params[0]], args[w.params[1]]);
            let (r, behind) = wrapped(m, number, n, a, b, memory);
            &&& semantics::yields(w, m, args, memory, out) == (out == (State::<
                D,
                M,
            >::Returned { value: Some(r), memory: behind }))
            &&& Some(r) == recursion(f, m, number, memory, k, number(a), number(b))
            &&& (t.depth)(behind) == (t.depth)(memory)
            &&& forall|i: int|
                is_place(i) ==> #[trigger] (t.runs)(behind, i) <= (t.runs)(memory, i) + 1
        }),
{
    let w = recursive_memoize::wrapper(f.name, n);
    wrapper_laws::the_wrapper_looks_up_or_calls(f.name, n, m, number, args, memory, out);
    let (a, b) = (args[w.params[0]], args[w.params[1]]);
    let x = memory;
    let depth = (t.depth)(x);
    let at_depth = (m.global)(n.depth);
    assert(loaded(m, at_depth, x) == (depth, x));
    let ready = cleared(m, (m.global)(n.tags), x);
    let deeper = m.of_two(BinaryOp::Iadd, v(9), v(3), depth, m.integer(1), ready);
    assert(number(m.integer(1)) == 1);
    assert(deeper == m.integer(1));
    let inside = after_store(m, at_depth, deeper, ready);
    assert forall|i: int| is_place(i) implies !is_set(number, t, inside, i) && #[trigger] (t.runs)(
        inside,
        i,
    ) == (t.runs)(x, i) by {
        assert((t.tag)(inside, i) == (t.tag)(ready, i));
    }
    assert(is_right(f, m, number, t, x, inside)) by {
        assert forall|c: i32, e: i32|
            has_slot(c, e) && is_set(number, t, inside, #[trigger] slot(c as int, e as int))
            implies exists|l: nat| #[trigger]
            recursion(f, m, number, x, l, c, e) == Some(
                (t.value)(inside, slot(c as int, e as int)),
            ) by {
            recursive_memoize::slots_are_distinct(c as int, e as int, c as int, e as int);
            assert((t.runs)(inside, slot(c as int, e as int)) == (t.runs)(
                x,
                slot(c as int, e as int),
            ));
        }
    }
    let behind = lemma_inside(f, m, number, n, t, x, k, a, b, inside);
    let y = after_store(m, at_depth, depth, behind);
    assert forall|i: int| is_place(i) implies #[trigger] (t.runs)(y, i) <= (t.runs)(x, i) + 1 by {
        assert((t.tag)(y, i) == (t.tag)(behind, i));
        assert((t.runs)(inside, i) == (t.runs)(x, i));
        assert(counted(number, t, inside, behind, i));
    }
}

} // verus!
