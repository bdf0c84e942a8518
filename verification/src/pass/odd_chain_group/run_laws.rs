//! What the helper returns.
use vstd::arithmetic::div_mod;
use vstd::prelude::*;
use vstd::set_lib;

use crate::ir::{BinaryOp, CompareOp, FuncView, ValueId};
use crate::pass::memo_laws::{adds_and_multiplies, place_of};
use crate::pass::odd_chain_group::aggregate;
use crate::pass::odd_chain_group::helper;
use crate::pass::odd_chain_group::helper::{
    ADD_BODY, ADD_LOOP, AGGREGATE, CACHE_BOUND, CACHE_ENTRIES, CACHE_FAILURE, CACHE_LOOKUP,
    CACHE_STATE_LIMIT, CACHE_STORE_DECIDE, CACHE_STORE_DONE, CACHE_STORE_FAILURE,
    CACHE_STORE_SELECT, CACHE_STORE_SUCCESS, CACHE_SUCCESS, COPIES, COPIES_BODY, COPIES_DONE, EVEN,
    EXIT, FAILURE, ODD_FOUR, ODD_THREE, OUTCOME, OUTCOME_DONE, OUTER, OUTER_LATCH, PARITY, SUCCESS,
    VALUE_DONE,
};
use crate::pass::odd_chain_group::laws;
use crate::pass::odd_chain_group::laws::{
    doubles, fails, next_state, over_doubles, over_odds, series, succeeds, total, triangle,
};
use crate::pass::odd_chain_group::recognize;
use crate::pass::odd_chain_group::recognize::{RecurrenceKind, SAFE_LIMIT};
use crate::pass::odd_chain_group::shape;
use crate::pass::odd_chain_group::steps;
use crate::pass::odd_chain_group::steps::{is_helper, running, Layout};
use crate::pass::piecewise_laws;
use crate::pass::range_integer;
use crate::pass::range_integer::laws::{computes_integers, of_compare};
use crate::pass::simplify_cfg::store_laws::after_store;
use crate::pass::wrapper_laws::{loaded, v};
use crate::semantics;
use crate::semantics::{Meaning, State};

verus! {

// ---------------------------------------------------------------------------
// Chains
// ---------------------------------------------------------------------------

/// The chain from `x` ends behind `d` steps.
pub open spec fn finishes(kind: RecurrenceKind, limit: int, x: int, d: nat) -> bool {
    succeeds(kind, limit, x, d) || fails(kind, limit, x, d)
}

/// The chain from `x` ends.
pub open spec fn ends(kind: RecurrenceKind, limit: int, x: int) -> bool {
    exists|d: nat| #[trigger] finishes(kind, limit, x, d)
}

/// The number of steps of the chain; minus one where it fails.
pub open spec fn outcome(kind: RecurrenceKind, limit: int, x: int) -> int {
    if exists|d: nat| #[trigger] succeeds(kind, limit, x, d) {
        (choose|d: nat| #[trigger] succeeds(kind, limit, x, d)) as int
    } else {
        -1
    }
}

/// What a number adds to the sum.
pub open spec fn chain_value(kind: RecurrenceKind, limit: int, x: int) -> int {
    if outcome(kind, limit, x) >= 0 {
        outcome(kind, limit, x)
    } else {
        recognize::failure_of(kind) as int
    }
}

proof fn lemma_finish_unique(kind: RecurrenceKind, limit: int, x: int, d: nat, e: nat)
    requires
        finishes(kind, limit, x, d),
        finishes(kind, limit, x, e),
    ensures
        d == e,
        succeeds(kind, limit, x, d) == succeeds(kind, limit, x, e),
        !(succeeds(kind, limit, x, d) && fails(kind, limit, x, d)),
    decreases d,
{
    if x != 1 {
        if let Some(z) = next_state(kind, limit, x) {
            lemma_finish_unique(kind, limit, z, (d - 1) as nat, (e - 1) as nat);
        }
    }
}

/// What the outcome is, where the chain ends.
proof fn lemma_outcome(kind: RecurrenceKind, limit: int, x: int, d: nat)
    requires
        finishes(kind, limit, x, d),
    ensures
        succeeds(kind, limit, x, d) ==> outcome(kind, limit, x) == d,
        !succeeds(kind, limit, x, d) ==> outcome(kind, limit, x) == -1,
{
    if exists|c: nat| #[trigger] succeeds(kind, limit, x, c) {
        let c = choose|c: nat| #[trigger] succeeds(kind, limit, x, c);
        assert(finishes(kind, limit, x, c));
        lemma_finish_unique(kind, limit, x, c, d);
    }
}

/// The next state of a chain within the limit is within the limit.
proof fn lemma_next_in(kind: RecurrenceKind, limit: int, x: int)
    requires
        1 <= x <= limit,
    ensures
        next_state(kind, limit, x) matches Some(z) ==> 1 <= z <= limit,
{
}

/// The states that the chain passes.
proof fn lemma_passed(kind: RecurrenceKind, limit: int, x: int, d: nat) -> (s: Set<int>)
    requires
        1 <= x <= limit,
        finishes(kind, limit, x, d),
    ensures
        s.finite(),
        s.len() == d + 1,
        forall|z: int| #[trigger]
            s.contains(z) ==> 1 <= z <= limit && exists|c: nat|
                c <= d && #[trigger] finishes(kind, limit, z, c),
    decreases d,
{
    if d == 0 {
        let s = set![x];
        assert(finishes(kind, limit, x, 0));
        s
    } else {
        lemma_next_in(kind, limit, x);
        let z = next_state(kind, limit, x)->Some_0;
        let t = lemma_passed(kind, limit, z, (d - 1) as nat);
        if t.contains(x) {
            let c = choose|c: nat| c <= d - 1 && #[trigger] finishes(kind, limit, x, c);
            lemma_finish_unique(kind, limit, x, c, d);
        }
        let s = t.insert(x);
        assert forall|u: int| #[trigger] s.contains(u) implies 1 <= u <= limit && exists|c: nat|
            c <= d && #[trigger] finishes(kind, limit, u, c) by {
            if u != x {
                assert(t.contains(u));
                let c = choose|c: nat| c <= d - 1 && #[trigger] finishes(kind, limit, u, c);
                assert(finishes(kind, limit, u, c));
            } else {
                assert(finishes(kind, limit, u, d));
            }
        }
        s
    }
}

/// A chain passes no state twice, so it has fewer steps than there are states.
pub proof fn chains_are_short(kind: RecurrenceKind, limit: int, x: int, d: nat)
    requires
        1 <= x <= limit,
        finishes(kind, limit, x, d),
    ensures
        d < limit,
{
    let s = lemma_passed(kind, limit, x, d);
    let all = set_lib::set_int_range(1, limit + 1);
    set_lib::lemma_int_range(1, limit + 1);
    assert(s.subset_of(all));
    set_lib::lemma_len_subset(s, all);
}

/// The values of the doubles of a number.
proof fn lemma_double(kind: RecurrenceKind, limit: int, x: int, d: nat)
    requires
        x >= 1,
        finishes(kind, limit, x, d),
    ensures
        finishes(kind, limit, 2 * x, d + 1),
        succeeds(kind, limit, 2 * x, d + 1) == succeeds(kind, limit, x, d),
        chain_value(kind, limit, 2 * x) == chain_value(kind, limit, x) + (if succeeds(
            kind,
            limit,
            x,
            d,
        ) {
            1int
        } else {
            0int
        }),
{
    laws::doubling_adds_a_step(kind, limit, x, d);
    lemma_outcome(kind, limit, x, d);
    lemma_outcome(kind, limit, 2 * x, d + 1);
}

/// A series with its first term taken off.
proof fn lemma_series_first(base: int, step: int, count: nat)
    ensures
        series(base, step, count + 1) == base + series(base + step, step, count),
    decreases count,
{
    if count > 0 {
        lemma_series_first(base, step, (count - 1) as nat);
        assert((count - 1) * step + step == count * step) by (nonlinear_arith);
    } else {
        assert(series(base, step, 1) == series(base, step, 0) + base + 0 * step);
    }
}

/// The sum over the doubles of a number is a series, whose terms are short.
proof fn lemma_doubles_series(kind: RecurrenceKind, limit: int, x: int, d: nat)
    requires
        1 <= x <= limit,
        finishes(kind, limit, x, d),
    ensures
        ({
            let step = if succeeds(kind, limit, x, d) {
                1int
            } else {
                0int
            };
            let count = doubles(x as nat, limit as nat);
            let base = chain_value(kind, limit, x);
            &&& over_doubles(|z: int| chain_value(kind, limit, z), x as nat, limit as nat)
                == series(base, step, count)
            &&& count >= 1
            &&& succeeds(kind, limit, x, d) ==> base == d && d + count <= limit
            &&& !succeeds(kind, limit, x, d) ==> base == recognize::failure_of(kind)
        }),
    decreases limit - x,
{
    let g = |z: int| chain_value(kind, limit, z);
    let step = if succeeds(kind, limit, x, d) {
        1int
    } else {
        0int
    };
    let base = chain_value(kind, limit, x);
    lemma_outcome(kind, limit, x, d);
    chains_are_short(kind, limit, x, d);
    lemma_double(kind, limit, x, d);
    if 2 * x <= limit {
        lemma_doubles_series(kind, limit, 2 * x, d + 1);
        let c = doubles((2 * x) as nat, limit as nat);
        lemma_series_first(base, step, c);
    } else {
        assert(doubles((2 * x) as nat, limit as nat) == 0);
        assert(over_doubles(g, (2 * x) as nat, limit as nat) == 0);
        assert(series(base, step, 1) == series(base, step, 0) + base + 0 * step);
    }
    assert(over_doubles(g, x as nat, limit as nat) == g(x) + over_doubles(
        g,
        2 * (x as nat),
        limit as nat,
    ));
}

// ---------------------------------------------------------------------------
// The meaning of the helper's instructions
// ---------------------------------------------------------------------------

/// What a memory holds for the helper.
#[verifier::reject_recursive_types(M)]
pub struct Cells<M> {
    /// The entry of the cache.
    pub entry: spec_fn(M, int) -> int,
    /// The memories are the same but for the cache.
    pub alike: spec_fn(M, M) -> bool,
}

/// Loads and stores of the cache do what they are called, and change nothing
/// else.
pub open spec fn keeps_cells<D, M>(
    m: Meaning<D, M>,
    number: spec_fn(D) -> i32,
    cache: Seq<char>,
    cells: Cells<M>,
) -> bool {
    &&& forall|i: D, x: M, z: M|
        0 <= number(i) < CACHE_ENTRIES ==> (#[trigger] loaded(m, place_of(m, cache, i, z), x)).1
            == x && number(loaded(m, place_of(m, cache, i, z), x).0) == (cells.entry)(
            x,
            number(i) as int,
        )
    &&& forall|i: D, x: M, z: M, d: D|
        0 <= number(i) < CACHE_ENTRIES ==> {
            let u = #[trigger] after_store(m, place_of(m, cache, i, z), d, x);
            &&& (cells.alike)(x, u)
            &&& forall|c: int|
                #[trigger] (cells.entry)(u, c) == if c == number(i) {
                    number(d) as int
                } else {
                    (cells.entry)(x, c)
                }
        }
    &&& forall|x: M| #[trigger] (cells.alike)(x, x)
    &&& forall|x: M, u: M, z: M| #[trigger]
        (cells.alike)(x, u) && #[trigger] (cells.alike)(u, z) ==> (cells.alike)(x, z)
}

/// The operations are what they are called.
pub open spec fn is_arithmetic<D, M>(m: Meaning<D, M>, number: spec_fn(D) -> i32) -> bool {
    &&& m.computes_apart_from_memory()
    &&& m.has_booleans()
    &&& computes_integers(m, number)
    &&& adds_and_multiplies(m, number)
    &&& forall|v: ValueId, w: ValueId, a: D, b: D, memory: M|
        i32::MIN <= number(a) - number(b) <= i32::MAX ==> #[trigger] m.of_two(
            BinaryOp::Isub,
            v,
            w,
            a,
            b,
            memory,
        ) == m.integer((number(a) - number(b)) as i32)
}

/// What the helper is built for, and called with.
pub struct Params {
    pub modulus: i32,
    pub cache: Seq<char>,
    pub limit: int,
}

pub open spec fn num<D>(number: spec_fn(D) -> i32, e: Map<ValueId, D>, i: int) -> int {
    number(e[v(i)]) as int
}

/// The constants have values before `n`.
pub open spec fn is_low(y: Layout) -> bool {
    &&& y.k.limit.0 < y.n
    &&& y.k.zero.0 < y.n
    &&& y.k.one.0 < y.n
    &&& y.k.two.0 < y.n
    &&& y.k.three.0 < y.n
    &&& y.k.four.0 < y.n
    &&& y.k.failure_value.0 < y.n
    &&& y.k.minus_one.0 < y.n
    &&& y.k.modulus.0 < y.n
    &&& y.k.safe_base.0 < y.n
    &&& y.k.cache_state_limit.0 < y.n
    &&& y.k.cache_ptr.0 < y.n
}

/// The data of the constants and of the argument.
#[verifier::opaque]
pub open spec fn is_based<D, M>(
    m: Meaning<D, M>,
    number: spec_fn(D) -> i32,
    y: Layout,
    p: Params,
    e: Map<ValueId, D>,
) -> bool {
    &&& number(e[y.k.limit]) == p.limit
    &&& e[y.k.zero] == m.integer(0)
    &&& e[y.k.one] == m.integer(1)
    &&& e[y.k.two] == m.integer(2)
    &&& e[y.k.three] == m.integer(3)
    &&& e[y.k.four] == m.integer(4)
    &&& e[y.k.failure_value] == m.integer(recognize::failure_of(y.kind))
    &&& e[y.k.minus_one] == m.integer(-1i32)
    &&& e[y.k.modulus] == m.integer(p.modulus)
    &&& e[y.k.safe_base] == m.integer(helper::safe_base(p.modulus as int) as i32)
    &&& e[y.k.cache_state_limit] == m.integer(CACHE_STATE_LIMIT)
    &&& e[y.k.cache_ptr] == (m.global)(p.cache)
}

/// Instructions do not change the constants.
proof fn lemma_based<D, M>(
    m: Meaning<D, M>,
    number: spec_fn(D) -> i32,
    y: Layout,
    p: Params,
    e: Map<ValueId, D>,
)
    requires
        is_low(y),
        0 <= y.n < 100,
        is_based(m, number, y, p, e),
    ensures
        forall|i: int, d: D|
            y.n <= i < 1000 ==> #[trigger] is_based(m, number, y, p, e.insert(v(i), d)),
{
    reveal(is_based);
}

proof fn lemma_constants<D, M>(
    m: Meaning<D, M>,
    number: spec_fn(D) -> i32,
    y: Layout,
    p: Params,
    e: Map<ValueId, D>,
)
    requires
        computes_integers(m, number),
        is_based(m, number, y, p, e),
    ensures
        number(e[y.k.limit]) == p.limit,
        e[y.k.zero] == m.integer(0),
        number(e[y.k.zero]) == 0,
        number(e[y.k.one]) == 1,
        number(e[y.k.two]) == 2,
        number(e[y.k.three]) == 3,
        number(e[y.k.four]) == 4,
        number(e[y.k.failure_value]) == recognize::failure_of(y.kind),
        number(e[y.k.minus_one]) == -1,
        number(e[y.k.modulus]) == p.modulus,
        number(e[y.k.safe_base]) == helper::safe_base(p.modulus as int) as i32,
        number(e[y.k.cache_state_limit]) == CACHE_STATE_LIMIT,
        e[y.k.cache_ptr] == (m.global)(p.cache),
{
    reveal(is_based);
}

/// The data in a round for the odd number `j`, with the sum `a` so far.
pub open spec fn is_in_round<D, M>(
    m: Meaning<D, M>,
    number: spec_fn(D) -> i32,
    y: Layout,
    p: Params,
    e: Map<ValueId, D>,
    j: int,
    a: int,
) -> bool {
    &&& is_based(m, number, y, p, e)
    &&& p.limit >= 0 ==> num(number, e, y.n + 0) == p.limit / 2
    &&& num(number, e, y.n + 1) == j
    &&& num(number, e, y.n + 2) == a
}

/// The helper can be run.
pub open spec fn can_run<D, M>(
    g: FuncView,
    m: Meaning<D, M>,
    number: spec_fn(D) -> i32,
    y: Layout,
    p: Params,
) -> bool {
    &&& is_helper(g, m, y)
    &&& is_low(y)
    &&& is_arithmetic(m, number)
    &&& aggregate::fits(p.modulus)
    &&& p.limit <= SAFE_LIMIT
}

proof fn lemma_quotient(x: int, d: int)
    requires
        x >= 0,
        d > 0,
    ensures
        range_integer::quotient(x, d) == x / d,
        range_integer::remainder(x, d) == x % d,
{
    div_mod::lemma_fundamental_div_mod(x, d);
    assert(x / d * d == d * (x / d)) by (nonlinear_arith);
}

proof fn lemma_parity(x: i32)
    requires
        x >= 0,
    ensures
        (x & 1) == 0 <==> x % 2 == 0,
{
    let u = x as u32;
    assert((u & 1u32) == 0 <==> u % 2 == 0) by (bit_vector);
    assert((x & 1i32) as u32 == (x as u32) & 1u32) by (bit_vector);
    assert((x & 1i32) == 0 <==> (x & 1i32) as u32 == 0) by (bit_vector);
}

proof fn at_outcome<D, M>(
    g: FuncView,
    m: Meaning<D, M>,
    number: spec_fn(D) -> i32,
    y: Layout,
    p: Params,
    e: Map<ValueId, D>,
    x: M,
    j: int,
    a: int,
    z: int,
    d: int,
) -> (r: Map<ValueId, D>)
    requires
        can_run(g, m, number, y, p),
        is_in_round(m, number, y, p, e, j, a),
        num(number, e, y.n + 4) == z,
        num(number, e, y.n + 5) == d,
    ensures
        semantics::step(g, m, running(OUTCOME, e, x)) == running(if z == 1 {
            SUCCESS
        } else {
            PARITY
        }, r, x),
        is_in_round(m, number, y, p, r, j, a),
        num(number, r, y.n + 4) == z,
        num(number, r, y.n + 5) == d,
{
    lemma_constants(m, number, y, p, e);
    steps::step_outcome(g, m, y, e, x);
    lemma_based(m, number, y, p, e);
    let e1 = e.insert(
        v(y.n + 6),
        of_compare(m, CompareOp::Eq, v(y.n + 4), y.k.one, e[v(y.n + 4)], e[y.k.one], x),
    );
    e1
}

proof fn at_success<D, M>(
    g: FuncView,
    m: Meaning<D, M>,
    number: spec_fn(D) -> i32,
    y: Layout,
    p: Params,
    e: Map<ValueId, D>,
    x: M,
    j: int,
    a: int,
    z: int,
    d: int,
) -> (r: Map<ValueId, D>)
    requires
        can_run(g, m, number, y, p),
        is_in_round(m, number, y, p, e, j, a),
        num(number, e, y.n + 4) == z,
        num(number, e, y.n + 5) == d,
    ensures
        semantics::step(g, m, running(SUCCESS, e, x)) == running(OUTCOME_DONE, r, x),
        is_in_round(m, number, y, p, r, j, a),
        num(number, r, y.q + 0) == d,
{
    lemma_constants(m, number, y, p, e);
    steps::step_success(g, m, y, e, x);
    lemma_based(m, number, y, p, e);
    let e1 = e.insert(v(y.q + 0), e[v(y.n + 5)]);
    e1
}

proof fn at_parity<D, M>(
    g: FuncView,
    m: Meaning<D, M>,
    number: spec_fn(D) -> i32,
    y: Layout,
    p: Params,
    e: Map<ValueId, D>,
    x: M,
    j: int,
    a: int,
    z: int,
    d: int,
) -> (r: Map<ValueId, D>)
    requires
        can_run(g, m, number, y, p),
        is_in_round(m, number, y, p, e, j, a),
        num(number, e, y.n + 4) == z,
        num(number, e, y.n + 5) == d,
        z >= 1,
    ensures
        semantics::step(g, m, running(PARITY, e, x)) == running(if z % 2 == 0 {
            EVEN
        } else {
            CACHE_BOUND
        }, r, x),
        is_in_round(m, number, y, p, r, j, a),
        num(number, r, y.n + 4) == z,
        num(number, r, y.n + 5) == d,
{
    lemma_constants(m, number, y, p, e);
    steps::step_parity(g, m, y, e, x);
    lemma_parity(number(e[v(y.n + 4)]));
    assert(
        number(m.integer(number(e[v(y.n + 4)]) & number(e[y.k.one]))) == number(e[v(y.n + 4)]) & 1
    );
    lemma_based(m, number, y, p, e);
    let e1 = e.insert(
        v(y.n + 7),
        m.of_two(BinaryOp::Iand, v(y.n + 4), y.k.one, e[v(y.n + 4)], e[y.k.one], x),
    );
    lemma_based(m, number, y, p, e1);
    let e2 = e1.insert(
        v(y.n + 8),
        of_compare(m, CompareOp::Eq, v(y.n + 7), y.k.zero, e1[v(y.n + 7)], e1[y.k.zero], x),
    );
    e2
}

proof fn at_even<D, M>(
    g: FuncView,
    m: Meaning<D, M>,
    number: spec_fn(D) -> i32,
    y: Layout,
    p: Params,
    e: Map<ValueId, D>,
    x: M,
    j: int,
    a: int,
    z: int,
    d: int,
) -> (r: Map<ValueId, D>)
    requires
        can_run(g, m, number, y, p),
        is_in_round(m, number, y, p, e, j, a),
        num(number, e, y.n + 4) == z,
        num(number, e, y.n + 5) == d,
        z >= 1,
        0 <= d < SAFE_LIMIT,
    ensures
        semantics::step(g, m, running(EVEN, e, x)) == running(OUTCOME, r, x),
        is_in_round(m, number, y, p, r, j, a),
        num(number, r, y.n + 4) == z / 2,
        num(number, r, y.n + 5) == d + 1,
{
    lemma_constants(m, number, y, p, e);
    steps::step_even(g, m, y, e, x);
    lemma_quotient(z, 2);
    assert(number(m.integer((z / 2) as i32)) == z / 2);
    assert(number(m.integer((d + 1) as i32)) == d + 1);
    lemma_based(m, number, y, p, e);
    let e1 = e.insert(
        v(y.n + 9),
        m.of_two(BinaryOp::Idiv, v(y.n + 4), y.k.two, e[v(y.n + 4)], e[y.k.two], x),
    );
    lemma_based(m, number, y, p, e1);
    let e2 = e1.insert(
        v(y.n + 10),
        m.of_two(BinaryOp::Iadd, v(y.n + 5), y.k.one, e1[v(y.n + 5)], e1[y.k.one], x),
    );
    lemma_based(m, number, y, p, e2);
    let e3 = e2.insert(v(y.n + 4), e2[v(y.n + 9)]);
    lemma_based(m, number, y, p, e3);
    let e4 = e3.insert(v(y.n + 5), e2[v(y.n + 10)]);
    e4
}

proof fn at_cache_bound<D, M>(
    g: FuncView,
    m: Meaning<D, M>,
    number: spec_fn(D) -> i32,
    y: Layout,
    p: Params,
    e: Map<ValueId, D>,
    x: M,
    j: int,
    a: int,
    z: int,
    d: int,
) -> (r: Map<ValueId, D>)
    requires
        can_run(g, m, number, y, p),
        is_in_round(m, number, y, p, e, j, a),
        num(number, e, y.n + 4) == z,
        num(number, e, y.n + 5) == d,
    ensures
        semantics::step(g, m, running(CACHE_BOUND, e, x)) == running(if z < j && z <= CACHE_STATE_LIMIT {
            CACHE_LOOKUP
        } else {
            ODD_THREE
        }, r, x),
        is_in_round(m, number, y, p, r, j, a),
        num(number, r, y.n + 4) == z,
        num(number, r, y.n + 5) == d,
{
    lemma_constants(m, number, y, p, e);
    steps::step_cache_bound(g, m, y, e, x);
    lemma_based(m, number, y, p, e);
    let e1 = e.insert(
        v(y.n + 11),
        of_compare(m, CompareOp::Lt, v(y.n + 4), v(y.n + 1), e[v(y.n + 4)], e[v(y.n + 1)], x),
    );
    lemma_based(m, number, y, p, e1);
    let e2 = e1.insert(
        v(y.n + 12),
        of_compare(
            m,
            CompareOp::Le,
            v(y.n + 4),
            y.k.cache_state_limit,
            e1[v(y.n + 4)],
            e1[y.k.cache_state_limit],
            x,
        ),
    );
    lemma_based(m, number, y, p, e2);
    let e3 = e2.insert(
        v(y.n + 13),
        m.of_two(BinaryOp::And, v(y.n + 11), v(y.n + 12), e2[v(y.n + 11)], e2[v(y.n + 12)], x),
    );
    e3
}

proof fn at_cache_lookup<D, M>(
    g: FuncView,
    m: Meaning<D, M>,
    number: spec_fn(D) -> i32,
    y: Layout,
    p: Params,
    e: Map<ValueId, D>,
    x: M,
    j: int,
    a: int,
    cells: Cells<M>,
    z: int,
    d: int,
) -> (r: Map<ValueId, D>)
    requires
        can_run(g, m, number, y, p),
        is_in_round(m, number, y, p, e, j, a),
        keeps_cells(m, number, p.cache, cells),
        num(number, e, y.n + 4) == z,
        num(number, e, y.n + 5) == d,
        1 <= z <= CACHE_STATE_LIMIT,
    ensures
        semantics::step(g, m, running(CACHE_LOOKUP, e, x)) == running(if (cells.entry)(x, z / 2) < 0 {
            CACHE_FAILURE
        } else {
            CACHE_SUCCESS
        }, r, x),
        is_in_round(m, number, y, p, r, j, a),
        num(number, r, y.n + 4) == z,
        num(number, r, y.n + 5) == d,
        num(number, r, y.n + 16) == (cells.entry)(x, z / 2),
{
    lemma_constants(m, number, y, p, e);
    steps::step_cache_lookup(g, m, y, e, x);
    lemma_quotient(z, 2);
    assert(number(m.integer((z / 2) as i32)) == z / 2);
    lemma_based(m, number, y, p, e);
    let e1 = e.insert(
        v(y.n + 14),
        m.of_two(BinaryOp::Idiv, v(y.n + 4), y.k.two, e[v(y.n + 4)], e[y.k.two], x),
    );
    lemma_based(m, number, y, p, e1);
    let e2 = e1.insert(v(y.n + 15), place_of(m, p.cache, e1[v(y.n + 14)], x));
    lemma_based(m, number, y, p, e2);
    let e3 = e2.insert(v(y.n + 16), loaded(m, e2[v(y.n + 15)], x).0);
    lemma_based(m, number, y, p, e3);
    let e4 = e3.insert(
        v(y.n + 17),
        of_compare(m, CompareOp::Lt, v(y.n + 16), y.k.zero, e3[v(y.n + 16)], e3[y.k.zero], x),
    );
    e4
}

proof fn at_cache_success<D, M>(
    g: FuncView,
    m: Meaning<D, M>,
    number: spec_fn(D) -> i32,
    y: Layout,
    p: Params,
    e: Map<ValueId, D>,
    x: M,
    j: int,
    a: int,
    d: int,
    c: int,
) -> (r: Map<ValueId, D>)
    requires
        can_run(g, m, number, y, p),
        is_in_round(m, number, y, p, e, j, a),
        num(number, e, y.n + 5) == d,
        num(number, e, y.n + 16) == c,
        0 <= d,
        1 <= c,
        d + c <= i32::MAX,
    ensures
        semantics::step(g, m, running(CACHE_SUCCESS, e, x)) == running(OUTCOME_DONE, r, x),
        is_in_round(m, number, y, p, r, j, a),
        num(number, r, y.q + 0) == d + (c - 1),
{
    lemma_constants(m, number, y, p, e);
    steps::step_cache_success(g, m, y, e, x);
    assert(number(m.integer((c - 1) as i32)) == c - 1);
    assert(number(m.integer((d + (c - 1)) as i32)) == d + (c - 1));
    lemma_based(m, number, y, p, e);
    let e1 = e.insert(
        v(y.n + 18),
        m.of_two(BinaryOp::Isub, v(y.n + 16), y.k.one, e[v(y.n + 16)], e[y.k.one], x),
    );
    lemma_based(m, number, y, p, e1);
    let e2 = e1.insert(
        v(y.n + 19),
        m.of_two(BinaryOp::Iadd, v(y.n + 5), v(y.n + 18), e1[v(y.n + 5)], e1[v(y.n + 18)], x),
    );
    lemma_based(m, number, y, p, e2);
    let e3 = e2.insert(v(y.q + 0), e2[v(y.n + 19)]);
    e3
}

proof fn at_cache_failure<D, M>(
    g: FuncView,
    m: Meaning<D, M>,
    number: spec_fn(D) -> i32,
    y: Layout,
    p: Params,
    e: Map<ValueId, D>,
    x: M,
    j: int,
    a: int,
) -> (r: Map<ValueId, D>)
    requires
        can_run(g, m, number, y, p),
        is_in_round(m, number, y, p, e, j, a),
    ensures
        semantics::step(g, m, running(CACHE_FAILURE, e, x)) == running(OUTCOME_DONE, r, x),
        is_in_round(m, number, y, p, r, j, a),
        num(number, r, y.q + 0) == -1,
{
    lemma_constants(m, number, y, p, e);
    steps::step_cache_failure(g, m, y, e, x);
    lemma_based(m, number, y, p, e);
    let e1 = e.insert(v(y.q + 0), e[y.k.minus_one]);
    e1
}

proof fn at_failure<D, M>(
    g: FuncView,
    m: Meaning<D, M>,
    number: spec_fn(D) -> i32,
    y: Layout,
    p: Params,
    e: Map<ValueId, D>,
    x: M,
    j: int,
    a: int,
) -> (r: Map<ValueId, D>)
    requires
        can_run(g, m, number, y, p),
        is_in_round(m, number, y, p, e, j, a),
    ensures
        semantics::step(g, m, running(FAILURE, e, x)) == running(OUTCOME_DONE, r, x),
        is_in_round(m, number, y, p, r, j, a),
        num(number, r, y.q + 0) == -1,
{
    lemma_constants(m, number, y, p, e);
    steps::step_failure(g, m, y, e, x);
    lemma_based(m, number, y, p, e);
    let e1 = e.insert(v(y.q + 0), e[y.k.minus_one]);
    e1
}

proof fn at_odd_three<D, M>(
    g: FuncView,
    m: Meaning<D, M>,
    number: spec_fn(D) -> i32,
    y: Layout,
    p: Params,
    e: Map<ValueId, D>,
    x: M,
    j: int,
    a: int,
    z: int,
    d: int,
) -> (r: Map<ValueId, D>)
    requires
        can_run(g, m, number, y, p),
        is_in_round(m, number, y, p, e, j, a),
        num(number, e, y.n + 4) == z,
        num(number, e, y.n + 5) == d,
        1 <= z <= SAFE_LIMIT,
        0 <= d <= SAFE_LIMIT,
    ensures
        3 * z + 1 <= p.limit ==> semantics::step(
            g,
            m,
            running(ODD_THREE, e, x),
        ) == running(OUTCOME, r, x) && num(number, r, y.n + 4) == 3 * z + 1 && num(number, r, y.n + 5) == d + 1,
        3 * z + 1 > p.limit ==> semantics::step(g, m, running(ODD_THREE, e, x)) == running(if y.kind == RecurrenceKind::ThreeOnly {
            FAILURE
        } else {
            ODD_FOUR
        }, r, x) && num(number, r, y.n + 4) == z && num(number, r, y.n + 5) == d,
        is_in_round(m, number, y, p, r, j, a),
{
    lemma_constants(m, number, y, p, e);
    steps::step_odd_three(g, m, y, e, x);
    assert(number(m.integer((3 * z) as i32)) == 3 * z);
    assert(number(m.integer((3 * z + 1) as i32)) == 3 * z + 1);
    assert(number(m.integer((d + 1) as i32)) == d + 1);
    assert(z * 3 == 3 * z);
    lemma_based(m, number, y, p, e);
    let e1 = e.insert(
        v(y.n + 20),
        m.of_two(BinaryOp::Imul, v(y.n + 4), y.k.three, e[v(y.n + 4)], e[y.k.three], x),
    );
    lemma_based(m, number, y, p, e1);
    let e2 = e1.insert(
        v(y.n + 21),
        m.of_two(BinaryOp::Iadd, v(y.n + 20), y.k.one, e1[v(y.n + 20)], e1[y.k.one], x),
    );
    lemma_based(m, number, y, p, e2);
    let e3 = e2.insert(
        v(y.n + 22),
        m.of_two(BinaryOp::Iadd, v(y.n + 5), y.k.one, e2[v(y.n + 5)], e2[y.k.one], x),
    );
    lemma_based(m, number, y, p, e3);
    let e4 = e3.insert(
        v(y.n + 23),
        of_compare(m, CompareOp::Le, v(y.n + 21), y.k.limit, e3[v(y.n + 21)], e3[y.k.limit], x),
    );
     if 3 * z + 1 <= p.limit {
        lemma_based(m, number, y, p, e4);
        let e5 = e4.insert(v(y.n + 4), e4[v(y.n + 21)]);
        lemma_based(m, number, y, p, e5);
        e5.insert(v(y.n + 5), e4[v(y.n + 22)])
    } else {
        e4
    }
}

proof fn at_odd_four<D, M>(
    g: FuncView,
    m: Meaning<D, M>,
    number: spec_fn(D) -> i32,
    y: Layout,
    p: Params,
    e: Map<ValueId, D>,
    x: M,
    j: int,
    a: int,
    z: int,
    d: int,
) -> (r: Map<ValueId, D>)
    requires
        can_run(g, m, number, y, p),
        is_in_round(m, number, y, p, e, j, a),
        num(number, e, y.n + 4) == z,
        num(number, e, y.n + 5) == d,
        1 <= z <= SAFE_LIMIT,
        0 <= d <= SAFE_LIMIT,
        y.kind == RecurrenceKind::ThreeThenFour,
    ensures
        4 * z + 1 <= p.limit ==> semantics::step(
            g,
            m,
            running(ODD_FOUR, e, x),
        ) == running(OUTCOME, r, x) && num(number, r, y.n + 4) == 4 * z + 1 && num(number, r, y.n + 5) == d + 1,
        4 * z + 1 > p.limit ==> semantics::step(
            g,
            m,
            running(ODD_FOUR, e, x),
        ) == running(FAILURE, r, x) && num(number, r, y.n + 4) == z && num(number, r, y.n + 5) == d,
        is_in_round(m, number, y, p, r, j, a),
{
    lemma_constants(m, number, y, p, e);
    steps::step_odd_four(g, m, y, e, x);
    assert(number(m.integer((4 * z) as i32)) == 4 * z);
    assert(number(m.integer((4 * z + 1) as i32)) == 4 * z + 1);
    assert(number(m.integer((d + 1) as i32)) == d + 1);
    assert(z * 4 == 4 * z);
    lemma_based(m, number, y, p, e);
    let e1 = e.insert(
        v(y.n + 24),
        m.of_two(BinaryOp::Imul, v(y.n + 4), y.k.four, e[v(y.n + 4)], e[y.k.four], x),
    );
    lemma_based(m, number, y, p, e1);
    let e2 = e1.insert(
        v(y.n + 25),
        m.of_two(BinaryOp::Iadd, v(y.n + 24), y.k.one, e1[v(y.n + 24)], e1[y.k.one], x),
    );
    lemma_based(m, number, y, p, e2);
    let e3 = e2.insert(
        v(y.n + 26),
        m.of_two(BinaryOp::Iadd, v(y.n + 5), y.k.one, e2[v(y.n + 5)], e2[y.k.one], x),
    );
    lemma_based(m, number, y, p, e3);
    let e4 = e3.insert(
        v(y.n + 27),
        of_compare(m, CompareOp::Le, v(y.n + 25), y.k.limit, e3[v(y.n + 25)], e3[y.k.limit], x),
    );
     if 4 * z + 1 <= p.limit {
        lemma_based(m, number, y, p, e4);
        let e5 = e4.insert(v(y.n + 4), e4[v(y.n + 25)]);
        lemma_based(m, number, y, p, e5);
        e5.insert(v(y.n + 5), e4[v(y.n + 26)])
    } else {
        e4
    }
}

proof fn lemma_first_step<D, M>(g: FuncView, m: Meaning<D, M>, s: State<D, M>, n: nat)
    ensures
        semantics::steps(g, m, s, n + 1) == semantics::steps(g, m, semantics::step(g, m, s), n),
{
    semantics::lemma_steps_add(g, m, s, 1, n);
    semantics::lemma_few_steps(g, m, s);
}

/// What the cache holds of a chain.
pub open spec fn encoded(o: int) -> int {
    if o < 0 {
        -1
    } else {
        o + 1
    }
}

/// The cache holds what is known of the odd numbers below `j`.
pub open spec fn holds<M>(cells: Cells<M>, kind: RecurrenceKind, limit: int, x: M, j: int) -> bool {
    forall|t: int|
        0 <= t && 2 * t + 1 < j && 2 * t + 1 <= CACHE_STATE_LIMIT ==> #[trigger] (cells.entry)(x, t)
            == encoded(outcome(kind, limit, 2 * t + 1))
}

proof fn run_chain<D, M>(
    g: FuncView,
    m: Meaning<D, M>,
    number: spec_fn(D) -> i32,
    y: Layout,
    p: Params,
    e: Map<ValueId, D>,
    x: M,
    j: int,
    a: int,
    cells: Cells<M>,
    z: int,
    d: int,
    c: nat,
) -> (r: (nat, Map<ValueId, D>))
    requires
        can_run(g, m, number, y, p),
        is_in_round(m, number, y, p, e, j, a),
        keeps_cells(m, number, p.cache, cells),
        holds(cells, y.kind, p.limit, x, j),
        num(number, e, y.n + 4) == z,
        num(number, e, y.n + 5) == d,
        1 <= z <= p.limit,
        0 <= d,
        d + c <= SAFE_LIMIT,
        finishes(y.kind, p.limit, z, c),
    ensures
        semantics::steps(g, m, running(OUTCOME, e, x), r.0) == running(OUTCOME_DONE, r.1, x),
        is_in_round(m, number, y, p, r.1, j, a),
        num(number, r.1, y.q + 0) == if succeeds(y.kind, p.limit, z, c) {
            d + c
        } else {
            -1
        },
    decreases c, 1int,
{
    let e1 = at_outcome(g, m, number, y, p, e, x, j, a, z, d);
    let s = running(OUTCOME, e, x);
    if z == 1 {
        let e2 = at_success(g, m, number, y, p, e1, x, j, a, z, d);
        semantics::lemma_few_steps(g, m, s);
        (2, e2)
    } else {
        let e2 = at_parity(g, m, number, y, p, e1, x, j, a, z, d);
        lemma_next_in(y.kind, p.limit, z);
        let (k, last) = if z % 2 == 0 {
            let e3 = at_even(g, m, number, y, p, e2, x, j, a, z, d);
            let (k, last) = run_chain(
                g,
                m,
                number,
                y,
                p,
                e3,
                x,
                j,
                a,
                cells,
                z / 2,
                d + 1,
                (c - 1) as nat,
            );
            lemma_first_step(g, m, running(EVEN, e2, x), k);
            (k + 1, last)
        } else {
            let e3 = at_cache_bound(g, m, number, y, p, e2, x, j, a, z, d);
            let (k, last) = if z < j && z <= CACHE_STATE_LIMIT {
                let t = z / 2;
                assert(2 * t + 1 == z);
                lemma_outcome(y.kind, p.limit, z, c);
                assert((cells.entry)(x, t) == encoded(outcome(y.kind, p.limit, 2 * t + 1)));
                let e4 = at_cache_lookup(g, m, number, y, p, e3, x, j, a, cells, z, d);
                let s3 = running(CACHE_LOOKUP, e3, x);
                semantics::lemma_few_steps(g, m, s3);
                if succeeds(y.kind, p.limit, z, c) {
                    let e5 = at_cache_success(g, m, number, y, p, e4, x, j, a, d, (c + 1) as int);
                    (2nat, e5)
                } else {
                    let e5 = at_cache_failure(g, m, number, y, p, e4, x, j, a);
                    (2nat, e5)
                }
            } else {
                run_odd(g, m, number, y, p, e3, x, j, a, cells, z, d, c)
            };
            lemma_first_step(g, m, running(CACHE_BOUND, e2, x), k);
            (k + 1, last)
        };
        lemma_first_step(g, m, running(PARITY, e1, x), k);
        lemma_first_step(g, m, s, k + 1);
        (k + 2, last)
    }
}

proof fn run_odd<D, M>(
    g: FuncView,
    m: Meaning<D, M>,
    number: spec_fn(D) -> i32,
    y: Layout,
    p: Params,
    e: Map<ValueId, D>,
    x: M,
    j: int,
    a: int,
    cells: Cells<M>,
    z: int,
    d: int,
    c: nat,
) -> (r: (nat, Map<ValueId, D>))
    requires
        can_run(g, m, number, y, p),
        is_in_round(m, number, y, p, e, j, a),
        keeps_cells(m, number, p.cache, cells),
        holds(cells, y.kind, p.limit, x, j),
        num(number, e, y.n + 4) == z,
        num(number, e, y.n + 5) == d,
        1 < z <= p.limit,
        z % 2 == 1,
        0 <= d,
        d + c <= SAFE_LIMIT,
        finishes(y.kind, p.limit, z, c),
    ensures
        semantics::steps(g, m, running(ODD_THREE, e, x), r.0) == running(OUTCOME_DONE, r.1, x),
        is_in_round(m, number, y, p, r.1, j, a),
        num(number, r.1, y.q + 0) == if succeeds(y.kind, p.limit, z, c) {
            d + c
        } else {
            -1
        },
    decreases c, 0int,
{
    let s = running(ODD_THREE, e, x);
    if 3 * z + 1 <= p.limit {
        let e1 = at_odd_three(g, m, number, y, p, e, x, j, a, z, d);
        let (k, last) = run_chain(
            g,
            m,
            number,
            y,
            p,
            e1,
            x,
            j,
            a,
            cells,
            3 * z + 1,
            d + 1,
            (c - 1) as nat,
        );
        lemma_first_step(g, m, s, k);
        (k + 1, last)
    } else {
        let e1 = at_odd_three(g, m, number, y, p, e, x, j, a, z, d);
        if y.kind == RecurrenceKind::ThreeOnly {
            let e2 = at_failure(g, m, number, y, p, e1, x, j, a);
            semantics::lemma_few_steps(g, m, s);
            (2, e2)
        } else {
            let e2 = at_odd_four(g, m, number, y, p, e1, x, j, a, z, d);
            if 4 * z + 1 <= p.limit {
                let (k, last) = run_chain(
                    g,
                    m,
                    number,
                    y,
                    p,
                    e2,
                    x,
                    j,
                    a,
                    cells,
                    4 * z + 1,
                    d + 1,
                    (c - 1) as nat,
                );
                lemma_first_step(g, m, running(ODD_FOUR, e1, x), k);
                lemma_first_step(g, m, s, k + 1);
                (k + 2, last)
            } else {
                let e3 = at_failure(g, m, number, y, p, e2, x, j, a);
                semantics::lemma_few_steps(g, m, running(ODD_FOUR, e1, x));
                lemma_first_step(g, m, s, 2);
                (3, e3)
            }
        }
    }
}

proof fn at_store_select<D, M>(
    g: FuncView,
    m: Meaning<D, M>,
    number: spec_fn(D) -> i32,
    y: Layout,
    p: Params,
    e: Map<ValueId, D>,
    x: M,
    j: int,
    a: int,
    o: int,
) -> (r: Map<ValueId, D>)
    requires
        can_run(g, m, number, y, p),
        is_in_round(m, number, y, p, e, j, a),
        num(number, e, y.q + 0) == o,
        1 <= j <= CACHE_STATE_LIMIT,
    ensures
        semantics::step(g, m, running(CACHE_STORE_SELECT, e, x)) == running(if o < 0 {
            CACHE_STORE_FAILURE
        } else {
            CACHE_STORE_SUCCESS
        }, r, x),
        is_in_round(m, number, y, p, r, j, a),
        num(number, r, y.q + 0) == o,
        num(number, r, y.q + 2) == j / 2,
        r[v(y.q + 3)] == place_of(m, p.cache, r[v(y.q + 2)], x),
{
    lemma_constants(m, number, y, p, e);
    steps::step_cache_store_select(g, m, y, e, x);
    lemma_quotient(j, 2);
    assert(number(m.integer((j / 2) as i32)) == j / 2);
    lemma_based(m, number, y, p, e);
    let e1 = e.insert(
        v(y.q + 2),
        m.of_two(BinaryOp::Idiv, v(y.n + 1), y.k.two, e[v(y.n + 1)], e[y.k.two], x),
    );
    lemma_based(m, number, y, p, e1);
    let e2 = e1.insert(v(y.q + 3), place_of(m, p.cache, e1[v(y.q + 2)], x));
    lemma_based(m, number, y, p, e2);
    let e3 = e2.insert(
        v(y.q + 4),
        of_compare(m, CompareOp::Lt, v(y.q + 0), y.k.zero, e2[v(y.q + 0)], e2[y.k.zero], x),
    );
    e3
}

proof fn at_store_decide<D, M>(
    g: FuncView,
    m: Meaning<D, M>,
    number: spec_fn(D) -> i32,
    y: Layout,
    p: Params,
    e: Map<ValueId, D>,
    x: M,
    j: int,
    a: int,
    o: int,
) -> (r: Map<ValueId, D>)
    requires
        can_run(g, m, number, y, p),
        is_in_round(m, number, y, p, e, j, a),
        num(number, e, y.q + 0) == o,
    ensures
        semantics::step(g, m, running(CACHE_STORE_DECIDE, e, x)) == running(if j <= CACHE_STATE_LIMIT {
            CACHE_STORE_SELECT
        } else {
            CACHE_STORE_DONE
        }, r, x),
        is_in_round(m, number, y, p, r, j, a),
        num(number, r, y.q + 0) == o,
{
    lemma_constants(m, number, y, p, e);
    steps::step_cache_store_decide(g, m, y, e, x);
    lemma_based(m, number, y, p, e);
    let e1 = e.insert(
        v(y.q + 1),
        of_compare(
            m,
            CompareOp::Le,
            v(y.n + 1),
            y.k.cache_state_limit,
            e[v(y.n + 1)],
            e[y.k.cache_state_limit],
            x,
        ),
    );
    e1
}

proof fn at_store_done<D, M>(
    g: FuncView,
    m: Meaning<D, M>,
    number: spec_fn(D) -> i32,
    y: Layout,
    p: Params,
    e: Map<ValueId, D>,
    x: M,
    j: int,
    a: int,
    o: int,
) -> (r: Map<ValueId, D>)
    requires
        can_run(g, m, number, y, p),
        is_in_round(m, number, y, p, e, j, a),
        num(number, e, y.q + 0) == o,
    ensures
        semantics::step(g, m, running(CACHE_STORE_DONE, e, x)) == running(COPIES, r, x),
        is_in_round(m, number, y, p, r, j, a),
        num(number, r, y.q + 0) == o,
        num(number, r, y.q + 6) == j,
        num(number, r, y.q + 7) == 1,
{
    lemma_constants(m, number, y, p, e);
    steps::step_cache_store_done(g, m, y, e, x);
    lemma_based(m, number, y, p, e);
    let e1 = e.insert(v(y.q + 6), e[v(y.n + 1)]);
    lemma_based(m, number, y, p, e1);
    let e2 = e1.insert(v(y.q + 7), e[y.k.one]);
    e2
}

proof fn run_store<D, M>(
    g: FuncView,
    m: Meaning<D, M>,
    number: spec_fn(D) -> i32,
    y: Layout,
    p: Params,
    e: Map<ValueId, D>,
    x: M,
    j: int,
    a: int,
    cells: Cells<M>,
    o: int,
) -> (r: (nat, Map<ValueId, D>, M))
    requires
        can_run(g, m, number, y, p),
        is_in_round(m, number, y, p, e, j, a),
        keeps_cells(m, number, p.cache, cells),
        holds(cells, y.kind, p.limit, x, j),
        num(number, e, y.q + 0) == o,
        1 <= j,
        j % 2 == 1,
        -1 <= o <= SAFE_LIMIT,
        o == outcome(y.kind, p.limit, j),
    ensures
        semantics::steps(g, m, running(OUTCOME_DONE, e, x), r.0) == running(COPIES, r.1, r.2),
        is_in_round(m, number, y, p, r.1, j, a),
        num(number, r.1, y.q + 0) == o,
        num(number, r.1, y.q + 6) == j,
        num(number, r.1, y.q + 7) == 1,
        holds(cells, y.kind, p.limit, r.2, j + 2),
        (cells.alike)(x, r.2),
{
    let s = running(OUTCOME_DONE, e, x);
    steps::step_outcome_done(g, m, y, e, x);
    let s1 = running(CACHE_STORE_DECIDE, e, x);
    let e1 = at_store_decide(g, m, number, y, p, e, x, j, a, o);
    assert((cells.alike)(x, x));
    if j <= CACHE_STATE_LIMIT {
        let s2 = running(CACHE_STORE_SELECT, e1, x);
        let e2 = at_store_select(g, m, number, y, p, e1, x, j, a, o);
        lemma_constants(m, number, y, p, e2);
        lemma_based(m, number, y, p, e2);
        let slot = e2[v(y.q + 3)];
        let (e3, datum) = if o < 0 {
            steps::step_cache_store_failure(g, m, y, e2, x);
            (e2, e2[y.k.minus_one])
        } else {
            steps::step_cache_store_success(g, m, y, e2, x);
            assert(number(m.integer((o + 1) as i32)) == o + 1);
            let e3 = e2.insert(
                v(y.q + 5),
                m.of_two(BinaryOp::Iadd, v(y.q + 0), y.k.one, e2[v(y.q + 0)], e2[y.k.one], x),
            );
            (e3, e3[v(y.q + 5)])
        };
        let u = after_store(m, slot, datum, x);
        assert(number(datum) == encoded(o));
        assert(j / 2 < CACHE_ENTRIES);
        assert(holds(cells, y.kind, p.limit, u, j + 2)) by {
            assert forall|t: int| 0 <= t && 2 * t + 1 < j + 2 && 2 * t + 1 <= CACHE_STATE_LIMIT
                implies #[trigger] (cells.entry)(u, t) == encoded(outcome(y.kind, p.limit, 2 * t + 1)) by {
                if t != j / 2 {
                    assert((cells.entry)(x, t) == encoded(outcome(y.kind, p.limit, 2 * t + 1)));
                } else {
                    assert(2 * t + 1 == j);
                }
            }
        }
        let e4 = at_store_done(g, m, number, y, p, e3, u, j, a, o);
        lemma_first_step(g, m, s, 4);
        lemma_first_step(g, m, s1, 3);
        lemma_first_step(g, m, s2, 2);
        semantics::lemma_few_steps(
            g,
            m,
            if o < 0 { running(
                CACHE_STORE_FAILURE,
                e2,
                x,
            ) } else { running(CACHE_STORE_SUCCESS, e2, x) },
        );
        (5, e4, u)
    } else {
        let e2 = at_store_done(g, m, number, y, p, e1, x, j, a, o);
        lemma_first_step(g, m, s, 2);
        semantics::lemma_few_steps(g, m, s1);
        (3, e2, x)
    }
}

proof fn at_copies<D, M>(
    g: FuncView,
    m: Meaning<D, M>,
    number: spec_fn(D) -> i32,
    y: Layout,
    p: Params,
    e: Map<ValueId, D>,
    x: M,
    j: int,
    a: int,
    o: int,
    z: int,
    c: int,
) -> (r: Map<ValueId, D>)
    requires
        can_run(g, m, number, y, p),
        is_in_round(m, number, y, p, e, j, a),
        num(number, e, y.q + 0) == o,
        num(number, e, y.q + 6) == z,
        num(number, e, y.q + 7) == c,
        p.limit >= 1,
    ensures
        semantics::step(g, m, running(COPIES, e, x)) == running(if 2 * z <= p.limit {
            COPIES_BODY
        } else {
            COPIES_DONE
        }, r, x),
        is_in_round(m, number, y, p, r, j, a),
        num(number, r, y.q + 0) == o,
        num(number, r, y.q + 6) == z,
        num(number, r, y.q + 7) == c,
{
    lemma_constants(m, number, y, p, e);
    steps::step_copies(g, m, y, e, x);
    assert(z <= p.limit / 2 <==> 2 * z <= p.limit);
    lemma_based(m, number, y, p, e);
    let e1 = e.insert(
        v(y.q + 8),
        of_compare(m, CompareOp::Le, v(y.q + 6), v(y.n + 0), e[v(y.q + 6)], e[v(y.n + 0)], x),
    );
    e1
}

proof fn at_copies_body<D, M>(
    g: FuncView,
    m: Meaning<D, M>,
    number: spec_fn(D) -> i32,
    y: Layout,
    p: Params,
    e: Map<ValueId, D>,
    x: M,
    j: int,
    a: int,
    o: int,
    z: int,
    c: int,
) -> (r: Map<ValueId, D>)
    requires
        can_run(g, m, number, y, p),
        is_in_round(m, number, y, p, e, j, a),
        num(number, e, y.q + 0) == o,
        num(number, e, y.q + 6) == z,
        num(number, e, y.q + 7) == c,
        1 <= z <= SAFE_LIMIT,
        0 <= c < 1000,
    ensures
        semantics::step(g, m, running(COPIES_BODY, e, x)) == running(COPIES, r, x),
        is_in_round(m, number, y, p, r, j, a),
        num(number, r, y.q + 0) == o,
        num(number, r, y.q + 6) == 2 * z,
        num(number, r, y.q + 7) == c + 1,
{
    lemma_constants(m, number, y, p, e);
    steps::step_copies_body(g, m, y, e, x);
    assert(number(m.integer((z * 2) as i32)) == z * 2);
    assert(number(m.integer((c + 1) as i32)) == c + 1);
    lemma_based(m, number, y, p, e);
    let e1 = e.insert(
        v(y.q + 9),
        m.of_two(BinaryOp::Imul, v(y.q + 6), y.k.two, e[v(y.q + 6)], e[y.k.two], x),
    );
    lemma_based(m, number, y, p, e1);
    let e2 = e1.insert(
        v(y.q + 10),
        m.of_two(BinaryOp::Iadd, v(y.q + 7), y.k.one, e1[v(y.q + 7)], e1[y.k.one], x),
    );
    lemma_based(m, number, y, p, e2);
    let e3 = e2.insert(v(y.q + 6), e2[v(y.q + 9)]);
    lemma_based(m, number, y, p, e3);
    let e4 = e3.insert(v(y.q + 7), e2[v(y.q + 10)]);
    e4
}

proof fn run_copies<D, M>(
    g: FuncView,
    m: Meaning<D, M>,
    number: spec_fn(D) -> i32,
    y: Layout,
    p: Params,
    e: Map<ValueId, D>,
    x: M,
    j: int,
    a: int,
    o: int,
    z: int,
    c: int,
) -> (r: (nat, Map<ValueId, D>))
    requires
        can_run(g, m, number, y, p),
        is_in_round(m, number, y, p, e, j, a),
        num(number, e, y.q + 0) == o,
        num(number, e, y.q + 6) == z,
        num(number, e, y.q + 7) == c,
        1 <= z <= p.limit,
        0 <= c,
        c + doubles((2 * z) as nat, p.limit as nat) < 100,
    ensures
        semantics::steps(g, m, running(COPIES, e, x), r.0) == running(COPIES_DONE, r.1, x),
        is_in_round(m, number, y, p, r.1, j, a),
        num(number, r.1, y.q + 0) == o,
        num(number, r.1, y.q + 7) == c + doubles((2 * z) as nat, p.limit as nat),
    decreases p.limit - z,
{
    let s = running(COPIES, e, x);
    let e1 = at_copies(g, m, number, y, p, e, x, j, a, o, z, c);
    if 2 * z <= p.limit {
        assert(
            doubles((2 * z) as nat, p.limit as nat) == 1 + doubles(
                (2 * (2 * z)) as nat,
                p.limit as nat,
            )
        );
        let e2 = at_copies_body(g, m, number, y, p, e1, x, j, a, o, z, c);
        let (k, last) = run_copies(g, m, number, y, p, e2, x, j, a, o, 2 * z, c + 1);
        lemma_first_step(g, m, running(COPIES_BODY, e1, x), k);
        lemma_first_step(g, m, s, k + 1);
        (k + 2, last)
    } else {
        assert(doubles((2 * z) as nat, p.limit as nat) == 0);
        semantics::lemma_few_steps(g, m, s);
        (1, e1)
    }
}

proof fn run_value<D, M>(
    g: FuncView,
    m: Meaning<D, M>,
    number: spec_fn(D) -> i32,
    y: Layout,
    p: Params,
    e: Map<ValueId, D>,
    x: M,
    j: int,
    a: int,
    o: int,
    c: int,
) -> (r: (nat, Map<ValueId, D>))
    requires
        can_run(g, m, number, y, p),
        is_in_round(m, number, y, p, e, j, a),
        num(number, e, y.q + 0) == o,
        num(number, e, y.q + 7) == c,
    ensures
        semantics::steps(g, m, running(COPIES_DONE, e, x), r.0) == running(VALUE_DONE, r.1, x),
        is_in_round(m, number, y, p, r.1, j, a),
        num(number, r.1, y.q + 7) == c,
        num(number, r.1, y.q + 12) == if o < 0 {
            recognize::failure_of(y.kind) as int
        } else {
            o
        },
        num(number, r.1, y.q + 13) == if o < 0 {
            0int
        } else {
            1int
        },
{
    lemma_constants(m, number, y, p, e);
    let s = running(COPIES_DONE, e, x);
    steps::step_copies_done(g, m, y, e, x);
    lemma_based(m, number, y, p, e);
    let e1 = e.insert(
        v(y.q + 11),
        of_compare(m, CompareOp::Lt, v(y.q + 0), y.k.zero, e[v(y.q + 0)], e[y.k.zero], x),
    );
    lemma_constants(m, number, y, p, e1);
    lemma_based(m, number, y, p, e1);
    semantics::lemma_few_steps(g, m, s);
    if o < 0 {
        steps::step_failed_value(g, m, y, e1, x);
        let e2 = e1.insert(v(y.q + 12), e1[y.k.failure_value]);
        lemma_based(m, number, y, p, e2);
        (2, e2.insert(v(y.q + 13), e1[y.k.zero]))
    } else {
        steps::step_successful_value(g, m, y, e1, x);
        let e2 = e1.insert(v(y.q + 12), e1[v(y.q + 0)]);
        lemma_based(m, number, y, p, e2);
        (2, e2.insert(v(y.q + 13), e1[y.k.one]))
    }
}

proof fn at_value_done<D, M>(
    g: FuncView,
    m: Meaning<D, M>,
    number: spec_fn(D) -> i32,
    y: Layout,
    p: Params,
    e: Map<ValueId, D>,
    x: M,
    j: int,
    a: int,
    b: int,
    i: int,
    c: int,
) -> (r: Map<ValueId, D>)
    requires
        can_run(g, m, number, y, p),
        is_in_round(m, number, y, p, e, j, a),
        num(number, e, y.q + 12) == b,
        num(number, e, y.q + 13) == i,
        num(number, e, y.q + 7) == c,
    ensures
        b <= helper::safe_base(p.modulus as int) ==> semantics::step(
            g,
            m,
            running(VALUE_DONE, e, x),
        ) == running(AGGREGATE, r, x),
        b > helper::safe_base(p.modulus as int) ==> semantics::step(
            g,
            m,
            running(VALUE_DONE, e, x),
        ) == running(ADD_LOOP, r, x) && num(number, r, y.q + 23) == 0 && num(number, r, y.q + 24) == a,
        is_in_round(m, number, y, p, r, j, a),
        num(number, r, y.q + 12) == b,
        num(number, r, y.q + 13) == i,
        num(number, r, y.q + 7) == c,
{
    lemma_constants(m, number, y, p, e);
    steps::step_value_done(g, m, y, e, x);
    lemma_safe_base(p.modulus as int);
    lemma_based(m, number, y, p, e);
    let e1 = e.insert(
        v(y.q + 14),
        of_compare(
            m,
            CompareOp::Le,
            v(y.q + 12),
            y.k.safe_base,
            e[v(y.q + 12)],
            e[y.k.safe_base],
            x,
        ),
    );
    if b <= helper::safe_base(p.modulus as int) {
        e1
    } else {
        lemma_based(m, number, y, p, e1);
        let e2 = e1.insert(v(y.q + 23), e1[y.k.zero]);
        lemma_based(m, number, y, p, e2);
        e2.insert(v(y.q + 24), e1[v(y.n + 2)])
    }
}

proof fn lemma_safe_base(modulus: int)
    requires
        1 <= modulus <= i32::MAX,
    ensures
        i32::MIN <= helper::safe_base(modulus) <= i32::MAX,
{
}

#[verifier::rlimit(60)]
proof fn at_aggregate<D, M>(
    g: FuncView,
    m: Meaning<D, M>,
    number: spec_fn(D) -> i32,
    y: Layout,
    p: Params,
    e: Map<ValueId, D>,
    x: M,
    j: int,
    a: int,
    b: int,
    i: int,
    c: int,
) -> (r: Map<ValueId, D>)
    requires
        can_run(g, m, number, y, p),
        is_in_round(m, number, y, p, e, j, a),
        num(number, e, y.q + 12) == b,
        num(number, e, y.q + 13) == i,
        num(number, e, y.q + 7) == c,
        0 <= a < p.modulus,
        0 <= b <= helper::safe_base(p.modulus as int),
        0 <= i <= 1,
        1 <= c <= helper::MAX_COPIES,
    ensures
        semantics::step(g, m, running(AGGREGATE, e, x)) == running(OUTER_LATCH, r, x),
        is_in_round(m, number, y, p, r, j, a),
        num(number, r, y.q + 31) == (a + series(b, i, c as nat)) % (p.modulus as int),
{
    lemma_constants(m, number, y, p, e);
    steps::step_aggregate(g, m, y, e, x);
    laws::closed_form_does_not_overflow(a, b, i, c, p.modulus as int);
    laws::closed_form_is_the_series(b, i, c as nat);
    let t = triangle(c);
    lemma_quotient(c * (c - 1), 2);
    let sum = b * c + t * i;
    lemma_quotient(a + sum, p.modulus as int);
    assert(a + sum >= 0);
    assert(0 <= t <= c * (c - 1));
    assert(0 <= t * i <= t) by (nonlinear_arith)
        requires
            0 <= t,
            0 <= i <= 1,
    ;
    assert(number(m.integer((c - 1) as i32)) == c - 1);
    assert(number(m.integer((c * (c - 1)) as i32)) == c * (c - 1));
    assert(number(m.integer(t as i32)) == t);
    assert(number(m.integer((b * c) as i32)) == b * c);
    assert(number(m.integer((t * i) as i32)) == t * i);
    assert(number(m.integer(sum as i32)) == sum);
    assert(number(m.integer((a + sum) as i32)) == a + sum);
    assert(0 <= (a + sum) % (p.modulus as int) < p.modulus);
    assert(
        number(
            m.integer(((a + sum) % (p.modulus as int)) as i32),
        ) == (a + sum) % (p.modulus as int)
    );
    lemma_based(m, number, y, p, e);
    let e1 = e.insert(
        v(y.q + 15),
        m.of_two(BinaryOp::Isub, v(y.q + 7), y.k.one, e[v(y.q + 7)], e[y.k.one], x),
    );
    lemma_based(m, number, y, p, e1);
    let e2 = e1.insert(
        v(y.q + 16),
        m.of_two(BinaryOp::Imul, v(y.q + 7), v(y.q + 15), e1[v(y.q + 7)], e1[v(y.q + 15)], x),
    );
    lemma_based(m, number, y, p, e2);
    let e3 = e2.insert(
        v(y.q + 17),
        m.of_two(BinaryOp::Idiv, v(y.q + 16), y.k.two, e2[v(y.q + 16)], e2[y.k.two], x),
    );
    lemma_based(m, number, y, p, e3);
    let e4 = e3.insert(
        v(y.q + 18),
        m.of_two(BinaryOp::Imul, v(y.q + 12), v(y.q + 7), e3[v(y.q + 12)], e3[v(y.q + 7)], x),
    );
    lemma_based(m, number, y, p, e4);
    let e5 = e4.insert(
        v(y.q + 19),
        m.of_two(BinaryOp::Imul, v(y.q + 17), v(y.q + 13), e4[v(y.q + 17)], e4[v(y.q + 13)], x),
    );
    lemma_based(m, number, y, p, e5);
    let e6 = e5.insert(
        v(y.q + 20),
        m.of_two(BinaryOp::Iadd, v(y.q + 18), v(y.q + 19), e5[v(y.q + 18)], e5[v(y.q + 19)], x),
    );
    lemma_based(m, number, y, p, e6);
    let e7 = e6.insert(
        v(y.q + 21),
        m.of_two(BinaryOp::Iadd, v(y.n + 2), v(y.q + 20), e6[v(y.n + 2)], e6[v(y.q + 20)], x),
    );
    lemma_based(m, number, y, p, e7);
    let e8 = e7.insert(
        v(y.q + 22),
        m.of_two(BinaryOp::Imod, v(y.q + 21), y.k.modulus, e7[v(y.q + 21)], e7[y.k.modulus], x),
    );
    lemma_based(m, number, y, p, e8);
    let e9 = e8.insert(v(y.q + 31), e8[v(y.q + 22)]);
    e9
}

proof fn at_add_loop<D, M>(
    g: FuncView,
    m: Meaning<D, M>,
    number: spec_fn(D) -> i32,
    y: Layout,
    p: Params,
    e: Map<ValueId, D>,
    x: M,
    j: int,
    a: int,
    b: int,
    i: int,
    c: int,
    t: int,
    w: int,
) -> (r: Map<ValueId, D>)
    requires
        can_run(g, m, number, y, p),
        is_in_round(m, number, y, p, e, j, a),
        num(number, e, y.q + 12) == b,
        num(number, e, y.q + 13) == i,
        num(number, e, y.q + 7) == c,
        num(number, e, y.q + 23) == t,
        num(number, e, y.q + 24) == w,
    ensures
        t < c ==> semantics::step(
            g,
            m,
            running(ADD_LOOP, e, x),
        ) == running(ADD_BODY, r, x) && num(number, r, y.q + 23) == t && num(number, r, y.q + 24) == w,
        t >= c ==> semantics::step(
            g,
            m,
            running(ADD_LOOP, e, x),
        ) == running(OUTER_LATCH, r, x) && num(number, r, y.q + 31) == w,
        is_in_round(m, number, y, p, r, j, a),
        num(number, r, y.q + 12) == b,
        num(number, r, y.q + 13) == i,
        num(number, r, y.q + 7) == c,
{
    lemma_constants(m, number, y, p, e);
    steps::step_add_loop(g, m, y, e, x);
    lemma_based(m, number, y, p, e);
    let e1 = e.insert(
        v(y.q + 25),
        of_compare(m, CompareOp::Lt, v(y.q + 23), v(y.q + 7), e[v(y.q + 23)], e[v(y.q + 7)], x),
    );
    lemma_based(m, number, y, p, e1);
    if t < c {
        e1
    } else {
        e1.insert(v(y.q + 31), e1[v(y.q + 24)])
    }
}

#[verifier::rlimit(40)]
proof fn at_add_body<D, M>(
    g: FuncView,
    m: Meaning<D, M>,
    number: spec_fn(D) -> i32,
    y: Layout,
    p: Params,
    e: Map<ValueId, D>,
    x: M,
    j: int,
    a: int,
    b: int,
    i: int,
    c: int,
    t: int,
    w: int,
) -> (r: Map<ValueId, D>)
    requires
        can_run(g, m, number, y, p),
        is_in_round(m, number, y, p, e, j, a),
        num(number, e, y.q + 12) == b,
        num(number, e, y.q + 13) == i,
        num(number, e, y.q + 7) == c,
        num(number, e, y.q + 23) == t,
        num(number, e, y.q + 24) == w,
        0 <= t < 1000,
        0 <= w < p.modulus,
        0 <= b,
        0 <= i <= 1,
        w + b + t * i <= i32::MAX,
    ensures
        semantics::step(g, m, running(ADD_BODY, e, x)) == running(ADD_LOOP, r, x),
        num(number, r, y.q + 23) == t + 1,
        num(number, r, y.q + 24) == (w + b + t * i) % (p.modulus as int),
        is_in_round(m, number, y, p, r, j, a),
        num(number, r, y.q + 12) == b,
        num(number, r, y.q + 13) == i,
        num(number, r, y.q + 7) == c,
{
    lemma_constants(m, number, y, p, e);
    steps::step_add_body(g, m, y, e, x);
    assert(0 <= t * i <= t) by (nonlinear_arith)
        requires
            0 <= t,
            0 <= i <= 1,
    ;
    let sum = w + (b + t * i);
    lemma_quotient(sum, p.modulus as int);
    assert(number(m.integer((t * i) as i32)) == t * i);
    assert(number(m.integer((b + t * i) as i32)) == b + t * i);
    assert(number(m.integer(sum as i32)) == sum);
    assert(0 <= sum % (p.modulus as int) < p.modulus);
    assert(number(m.integer((sum % (p.modulus as int)) as i32)) == sum % (p.modulus as int));
    assert(number(m.integer((t + 1) as i32)) == t + 1);
    lemma_based(m, number, y, p, e);
    let e1 = e.insert(
        v(y.q + 26),
        m.of_two(BinaryOp::Imul, v(y.q + 23), v(y.q + 13), e[v(y.q + 23)], e[v(y.q + 13)], x),
    );
    lemma_based(m, number, y, p, e1);
    let e2 = e1.insert(
        v(y.q + 27),
        m.of_two(BinaryOp::Iadd, v(y.q + 12), v(y.q + 26), e1[v(y.q + 12)], e1[v(y.q + 26)], x),
    );
    lemma_based(m, number, y, p, e2);
    let e3 = e2.insert(
        v(y.q + 28),
        m.of_two(BinaryOp::Iadd, v(y.q + 24), v(y.q + 27), e2[v(y.q + 24)], e2[v(y.q + 27)], x),
    );
    lemma_based(m, number, y, p, e3);
    let e4 = e3.insert(
        v(y.q + 29),
        m.of_two(BinaryOp::Imod, v(y.q + 28), y.k.modulus, e3[v(y.q + 28)], e3[y.k.modulus], x),
    );
    lemma_based(m, number, y, p, e4);
    let e5 = e4.insert(
        v(y.q + 30),
        m.of_two(BinaryOp::Iadd, v(y.q + 23), y.k.one, e4[v(y.q + 23)], e4[y.k.one], x),
    );
    lemma_based(m, number, y, p, e5);
    let e6 = e5.insert(v(y.q + 23), e5[v(y.q + 30)]);
    lemma_based(m, number, y, p, e6);
    let e7 = e6.insert(v(y.q + 24), e5[v(y.q + 29)]);
    e7
}

proof fn run_adding<D, M>(
    g: FuncView,
    m: Meaning<D, M>,
    number: spec_fn(D) -> i32,
    y: Layout,
    p: Params,
    e: Map<ValueId, D>,
    x: M,
    j: int,
    a: int,
    b: int,
    i: int,
    c: int,
    t: int,
    w: int,
) -> (r: (nat, Map<ValueId, D>))
    requires
        can_run(g, m, number, y, p),
        is_in_round(m, number, y, p, e, j, a),
        num(number, e, y.q + 12) == b,
        num(number, e, y.q + 13) == i,
        num(number, e, y.q + 7) == c,
        num(number, e, y.q + 23) == t,
        num(number, e, y.q + 24) == w,
        0 <= t <= c < 1000,
        w == (a + series(b, i, t as nat)) % (p.modulus as int),
        0 <= b,
        0 <= i <= 1,
        b + c * i <= SAFE_LIMIT,
    ensures
        semantics::steps(g, m, running(ADD_LOOP, e, x), r.0) == running(OUTER_LATCH, r.1, x),
        is_in_round(m, number, y, p, r.1, j, a),
        num(number, r.1, y.q + 31) == (a + series(b, i, c as nat)) % (p.modulus as int),
    decreases c - t,
{
    let s = running(ADD_LOOP, e, x);
    let e1 = at_add_loop(g, m, number, y, p, e, x, j, a, b, i, c, t, w);
    if t < c {
        assert(t * i <= c * i) by (nonlinear_arith)
            requires
                t <= c,
                0 <= i,
        ;
        let q = p.modulus as int;
        assert(0 <= w < q);
        let e2 = at_add_body(g, m, number, y, p, e1, x, j, a, b, i, c, t, w);
        assert((w + b + t * i) % q == (a + series(b, i, (t + 1) as nat)) % q) by {
            let all = a + series(b, i, t as nat);
            let more = b + t * i;
            assert(series(b, i, (t + 1) as nat) == series(b, i, t as nat) + b + t * i);
            div_mod::lemma_add_mod_noop(all, more, q);
            div_mod::lemma_add_mod_noop(w, more, q);
            div_mod::lemma_mod_twice(all, q);
        }
        let (k, last) = run_adding(
            g,
            m,
            number,
            y,
            p,
            e2,
            x,
            j,
            a,
            b,
            i,
            c,
            t + 1,
            (w + b + t * i) % q,
        );
        lemma_first_step(g, m, running(ADD_BODY, e1, x), k);
        lemma_first_step(g, m, s, k + 1);
        (k + 2, last)
    } else {
        semantics::lemma_few_steps(g, m, s);
        (1, e1)
    }
}

proof fn at_outer_latch<D, M>(
    g: FuncView,
    m: Meaning<D, M>,
    number: spec_fn(D) -> i32,
    y: Layout,
    p: Params,
    e: Map<ValueId, D>,
    x: M,
    j: int,
    a: int,
    b: int,
) -> (r: Map<ValueId, D>)
    requires
        can_run(g, m, number, y, p),
        is_in_round(m, number, y, p, e, j, a),
        num(number, e, y.q + 31) == b,
        1 <= j <= SAFE_LIMIT,
    ensures
        semantics::step(g, m, running(OUTER_LATCH, e, x)) == running(OUTER, r, x),
        is_in_round(m, number, y, p, r, j + 2, b),
{
    lemma_constants(m, number, y, p, e);
    steps::step_outer_latch(g, m, y, e, x);
    assert(number(m.integer((j + 2) as i32)) == j + 2);
    lemma_based(m, number, y, p, e);
    let e1 = e.insert(
        v(y.q + 32),
        m.of_two(BinaryOp::Iadd, v(y.n + 1), y.k.two, e[v(y.n + 1)], e[y.k.two], x),
    );
    lemma_based(m, number, y, p, e1);
    let e2 = e1.insert(v(y.n + 1), e1[v(y.q + 32)]);
    lemma_based(m, number, y, p, e2);
    let e3 = e2.insert(v(y.n + 2), e1[v(y.q + 31)]);
    e3
}

proof fn at_outer<D, M>(
    g: FuncView,
    m: Meaning<D, M>,
    number: spec_fn(D) -> i32,
    y: Layout,
    p: Params,
    e: Map<ValueId, D>,
    x: M,
    j: int,
    a: int,
) -> (r: Map<ValueId, D>)
    requires
        can_run(g, m, number, y, p),
        is_in_round(m, number, y, p, e, j, a),
    ensures
        j <= p.limit ==> semantics::step(
            g,
            m,
            running(OUTER, e, x),
        ) == running(OUTCOME, r, x) && num(number, r, y.n + 4) == j && num(number, r, y.n + 5) == 0,
        j > p.limit ==> semantics::step(g, m, running(OUTER, e, x)) == running(EXIT, r, x),
        is_in_round(m, number, y, p, r, j, a),
{
    lemma_constants(m, number, y, p, e);
    steps::step_outer(g, m, y, e, x);
    lemma_based(m, number, y, p, e);
    let e1 = e.insert(
        v(y.n + 3),
        of_compare(m, CompareOp::Le, v(y.n + 1), y.k.limit, e[v(y.n + 1)], e[y.k.limit], x),
    );
    if j <= p.limit {
        lemma_based(m, number, y, p, e1);
        let e2 = e1.insert(v(y.n + 4), e1[v(y.n + 1)]);
        lemma_based(m, number, y, p, e2);
        e2.insert(v(y.n + 5), e1[y.k.zero])
    } else {
        e1
    }
}

/// What the numbers add to the sum.
pub open spec fn values(kind: RecurrenceKind, limit: int) -> spec_fn(int) -> int {
    |z: int| chain_value(kind, limit, z)
}

#[verifier::rlimit(40)]
proof fn run_round<D, M>(
    g: FuncView,
    m: Meaning<D, M>,
    number: spec_fn(D) -> i32,
    y: Layout,
    p: Params,
    e: Map<ValueId, D>,
    x: M,
    j: int,
    a: int,
    cells: Cells<M>,
) -> (r: (nat, Map<ValueId, D>, M))
    requires
        can_run(g, m, number, y, p),
        is_in_round(m, number, y, p, e, j, a),
        keeps_cells(m, number, p.cache, cells),
        holds(cells, y.kind, p.limit, x, j),
        1 <= j <= p.limit,
        j % 2 == 1,
        0 <= a < p.modulus,
        ends(y.kind, p.limit, j),
    ensures
        r.0 > 0,
        semantics::steps(g, m, running(OUTER, e, x), r.0) == running(OUTER, r.1, r.2),
        is_in_round(
            m,
            number,
            y,
            p,
            r.1,
            j + 2,
            (
                a + over_doubles(values(y.kind, p.limit), j as nat, p.limit as nat)
            ) % (p.modulus as int),
        ),
        holds(cells, y.kind, p.limit, r.2, j + 2),
        (cells.alike)(x, r.2),
{
    let d = choose|d: nat| #[trigger] finishes(y.kind, p.limit, j, d);
    let s = running(OUTER, e, x);
    chains_are_short(y.kind, p.limit, j, d);
    lemma_outcome(y.kind, p.limit, j, d);
    lemma_doubles_series(y.kind, p.limit, j, d);
    laws::doubles_are_few(j as nat, p.limit as nat);
    let o = outcome(y.kind, p.limit, j);
    let c = doubles(j as nat, p.limit as nat) as int;
    assert(c == 1 + doubles((2 * j) as nat, p.limit as nat));
    let e1 = at_outer(g, m, number, y, p, e, x, j, a);
    let s1 = running(OUTCOME, e1, x);
    let (k1, e2) = run_chain(g, m, number, y, p, e1, x, j, a, cells, j, 0, d);
    let s2 = running(OUTCOME_DONE, e2, x);
    let (k2, e3, u) = run_store(g, m, number, y, p, e2, x, j, a, cells, o);
    let s3 = running(COPIES, e3, u);
    let (k3, e4) = run_copies(g, m, number, y, p, e3, u, j, a, o, j, 1);
    let s4 = running(COPIES_DONE, e4, u);
    let (k4, e5) = run_value(g, m, number, y, p, e4, u, j, a, o, c);
    let s5 = running(VALUE_DONE, e5, u);
    let b = chain_value(y.kind, p.limit, j);
    let i = if o < 0 {
        0int
    } else {
        1int
    };
    let e6 = at_value_done(g, m, number, y, p, e5, u, j, a, b, i, c);
    assert(over_doubles(values(y.kind, p.limit), j as nat, p.limit as nat) == series(b, i, c as nat)) by {
        let f = |z: int| chain_value(y.kind, p.limit, z);
        assert(f == values(y.kind, p.limit));
    }
    let (k5, e7) = if b <= helper::safe_base(p.modulus as int) {
        let e7 = at_aggregate(g, m, number, y, p, e6, u, j, a, b, i, c);
        semantics::lemma_few_steps(g, m, running(AGGREGATE, e6, u));
        (1nat, e7)
    } else {
        assert(b + c * i <= SAFE_LIMIT);
        div_mod::lemma_small_mod(a as nat, p.modulus as nat);
        run_adding(g, m, number, y, p, e6, u, j, a, b, i, c, 0, a)
    };
    let total = (a + series(b, i, c as nat)) % (p.modulus as int);
    let e8 = at_outer_latch(g, m, number, y, p, e7, u, j, a, total);
    let s7 = running(OUTER_LATCH, e7, u);
    semantics::lemma_few_steps(g, m, s7);
    lemma_first_step(g, m, s5, k5);
    semantics::lemma_steps_add(g, m, s5, k5 + 1, 1);
    semantics::lemma_steps_add(g, m, s4, k4, k5 + 2);
    semantics::lemma_steps_add(g, m, s3, k3, k4 + (k5 + 2));
    semantics::lemma_steps_add(g, m, s2, k2, k3 + (k4 + (k5 + 2)));
    semantics::lemma_steps_add(g, m, s1, k1, k2 + (k3 + (k4 + (k5 + 2))));
    lemma_first_step(g, m, s, k1 + (k2 + (k3 + (k4 + (k5 + 2)))));
    (k1 + (k2 + (k3 + (k4 + (k5 + 2)))) + 1, e8, u)
}

proof fn run_rounds<D, M>(
    g: FuncView,
    m: Meaning<D, M>,
    number: spec_fn(D) -> i32,
    y: Layout,
    p: Params,
    e: Map<ValueId, D>,
    x: M,
    j: int,
    a: int,
    cells: Cells<M>,
) -> (r: (nat, D, M))
    requires
        can_run(g, m, number, y, p),
        is_in_round(m, number, y, p, e, j, a),
        keeps_cells(m, number, p.cache, cells),
        holds(cells, y.kind, p.limit, x, j),
        1 <= j,
        j % 2 == 1,
        forall|z: int|
            j <= z <= p.limit && z % 2 == 1 ==> #[trigger] ends(y.kind, p.limit, z),
        a == over_odds(values(y.kind, p.limit), (j - 1) as nat, limit_of(p)) % (p.modulus as int),
    ensures
        semantics::steps(g, m, running(OUTER, e, x), r.0) == (State::<D, M>::Returned {
            value: Some(r.1),
            memory: r.2,
        }),
        number(r.1) == total(values(y.kind, p.limit), limit_of(p)) % (p.modulus as int),
        (cells.alike)(x, r.2),
    decreases p.limit + 2 - j,
{
    let s = running(OUTER, e, x);
    let q = p.modulus as int;
    let f = values(y.kind, p.limit);
    if j <= p.limit {
        assert(ends(y.kind, p.limit, j));
        let (k, e1, u) = run_round(g, m, number, y, p, e, x, j, a, cells);
        let before = over_odds(f, (j - 1) as nat, limit_of(p));
        let more = over_doubles(f, j as nat, p.limit as nat);
        let b = (a + more) % q;
        assert(over_odds(f, (j + 1) as nat, limit_of(p)) == before + more) by {
            assert(over_odds(f, j as nat, limit_of(p)) == before + more);
            assert((j + 1) as nat % 2 == 0);
        }
        assert(b == (before + more) % q) by {
            div_mod::lemma_add_mod_noop(before, more, q);
            div_mod::lemma_add_mod_noop(a, more, q);
            div_mod::lemma_mod_twice(before, q);
        }
        let (l, d, z) = run_rounds(g, m, number, y, p, e1, u, j + 2, b, cells);
        semantics::lemma_steps_add(g, m, s, k, l);
        (k + l, d, z)
    } else {
        let e1 = at_outer(g, m, number, y, p, e, x, j, a);
        steps::step_exit(g, m, y, e1, x);
        semantics::lemma_few_steps(g, m, s);
        assert((cells.alike)(x, x));
        laws::lemma_odds_beyond(f, (j - 1) as nat, limit_of(p));
        laws::grouping_keeps_the_sum(f, limit_of(p));
        (2, e1[v(y.n + 2)], x)
    }
}

/// The numbers from one to this one are summed.
pub open spec fn limit_of(p: Params) -> nat {
    if p.limit < 0 {
        0
    } else {
        p.limit as nat
    }
}

/// A call of the helper, with a limit up to the safe one, returns the sum of what
/// the numbers up to the limit add to it, modulo the modulus, whatever the cache
/// holds, and changes nothing but the cache; as long as the chains of the odd
/// numbers end.
pub proof fn the_helper_returns_the_sum<D, M>(
    name: Seq<char>,
    modulus: i32,
    cache: Seq<char>,
    kind: RecurrenceKind,
    m: Meaning<D, M>,
    number: spec_fn(D) -> i32,
    cells: Cells<M>,
    args: Map<ValueId, D>,
    memory: M,
    out: State<D, M>,
) -> (r: (D, M))
    requires
        is_arithmetic(m, number),
        keeps_cells(m, number, cache, cells),
        aggregate::fits(modulus),
        ({
            let limit = number(
                args[helper::grouped_helper(name, modulus, cache, kind).params[0]],
            ) as int;
            &&& limit <= SAFE_LIMIT
            &&& forall|z: int| 1 <= z <= limit && z % 2 == 1 ==> #[trigger] ends(kind, limit, z)
        }),
    ensures
        ({
            let g = helper::grouped_helper(name, modulus, cache, kind);
            let limit = number(args[g.params[0]]) as int;
            let count: nat = if limit < 0 {
                0
            } else {
                limit as nat
            };
            &&& semantics::yields(g, m, args, memory, out) == (out == (State::<D, M>::Returned {
                value: Some(r.0),
                memory: r.1,
            }))
            &&& number(r.0) == total(values(kind, limit), count) % (modulus as int)
            &&& (cells.alike)(memory, r.1)
        }),
{
    let g = helper::grouped_helper(name, modulus, cache, kind);
    let (k, n) = shape::lemma_helper(name, modulus, cache, kind);
    let y = Layout { k, kind, n, q: shape::behind(kind, n) };
    let limit = number(args[g.params[0]]) as int;
    let p = Params { modulus, cache, limit };
    let e = semantics::initial(g, m, args);
    let s = semantics::start(g, m, args, memory);
    assert(g.params[0] == v(0));
    assert(is_low(y));
    assert(is_based(m, number, y, p, e)) by {
        reveal(is_based);
        assert(g.has_value(v(0)));
        assert(g.has_value(k.zero) && g.has_value(k.one) && g.has_value(k.two));
        assert(g.has_value(k.three) && g.has_value(k.four) && g.has_value(k.failure_value));
        assert(g.has_value(k.minus_one) && g.has_value(k.modulus) && g.has_value(k.safe_base));
        assert(g.has_value(k.cache_state_limit) && g.has_value(k.cache_ptr));
    }
    steps::step_entry(g, m, y, e, memory);
    lemma_constants(m, number, y, p, e);
    lemma_based(m, number, y, p, e);
    let e1 = e.insert(
        v(y.n + 0),
        m.of_two(BinaryOp::Idiv, k.limit, k.two, e[k.limit], e[k.two], memory),
    );
    lemma_constants(m, number, y, p, e1);
    lemma_based(m, number, y, p, e1);
    let e2 = e1.insert(v(y.n + 1), e1[k.one]);
    lemma_based(m, number, y, p, e2);
    let e3 = e2.insert(v(y.n + 2), e1[k.zero]);
    if limit >= 0 {
        lemma_quotient(limit, 2);
        assert(number(m.integer((limit / 2) as i32)) == limit / 2);
    }
    assert(over_odds(values(kind, limit), 0, limit_of(p)) == 0);
    assert(is_in_round(m, number, y, p, e3, 1, 0));
    let (l, d, u) = run_rounds(g, m, number, y, p, e3, memory, 1, 0, cells);
    lemma_first_step(g, m, s, l);
    let last = State::<D, M>::Returned { value: Some(d), memory: u };
    piecewise_laws::lemma_only_outcome(g, m, args, memory, l + 1, last, out);
    (d, u)
}

} // verus!
