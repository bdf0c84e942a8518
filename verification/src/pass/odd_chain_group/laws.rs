//! What the grouping rests on.
use vstd::arithmetic::power2::{lemma2_to64, lemma_pow2_strictly_increases, lemma_pow2_unfold, pow2};
use vstd::prelude::*;

use crate::ir::{BinaryOp, FuncView, ValueId};
use crate::pass::odd_chain_group::helper;
use crate::pass::odd_chain_group::recognize;
use crate::pass::odd_chain_group::recognize::{RecurrenceKind, SAFE_LIMIT};
use crate::patterns;
use crate::util;

verus! {

// ---------------------------------------------------------------------------
// Affine forms
// ---------------------------------------------------------------------------

/// What an operation gives, where it is an addition, subtraction or
/// multiplication.
pub open spec fn evaluated(op: BinaryOp, x: int, y: int) -> Option<int> {
    match op {
        BinaryOp::Iadd => Some(x + y),
        BinaryOp::Isub => Some(x - y),
        BinaryOp::Imul => Some(x * y),
        _ => None,
    }
}

/// The values are those of the constants and operations of the function, and
/// no operation overflows.
pub open spec fn obeys(f: FuncView, env: spec_fn(ValueId) -> int) -> bool {
    &&& forall|v: ValueId| (#[trigger] util::const_i32_of(f, v)) matches Some(c) ==> env(v) == c
    &&& forall|v: ValueId|
        (#[trigger] patterns::binary_of(f, v)) matches Some((op, lhs, rhs)) ==> (evaluated(
            op,
            env(lhs),
            env(rhs),
        ) matches Some(x) ==> env(v) == x)
}

/// The recognized form `a * base + b` is what the value is.
pub proof fn affine_form_is_sound(
    f: FuncView,
    env: spec_fn(ValueId) -> int,
    v: ValueId,
    base: ValueId,
    fuel: nat,
)
    requires
        obeys(f, env),
    ensures
        recognize::affine_in(f, v, base, fuel) matches Some((a, b)) ==> env(v) == a * env(base) + b,
    decreases fuel,
{
    if v != base && util::const_i32_of(f, v) is None {
        if let Some((op, lhs, rhs)) = patterns::binary_of(f, v) {
            if fuel > 0 {
                let less = (fuel - 1) as nat;
                affine_form_is_sound(f, env, lhs, base, less);
                affine_form_is_sound(f, env, rhs, base, less);
                if let (Some(l), Some(r)) = (
                    recognize::affine_in(f, lhs, base, less),
                    recognize::affine_in(f, rhs, base, less),
                ) {
                    let x = env(base);
                    let (la, lb) = (l.0 as int, l.1 as int);
                    let (ra, rb) = (r.0 as int, r.1 as int);
                    assert((la + ra) * x + (lb + rb) == (la * x + lb) + (ra * x + rb))
                        by (nonlinear_arith);
                    assert((la - ra) * x + (lb - rb) == (la * x + lb) - (ra * x + rb))
                        by (nonlinear_arith);
                    assert(la == 0 ==> (la * x + lb) * (ra * x + rb) == (ra * lb) * x + rb * lb)
                        by (nonlinear_arith);
                    assert(ra == 0 ==> (la * x + lb) * (ra * x + rb) == (la * rb) * x + lb * rb)
                        by (nonlinear_arith);
                }
            }
        }
    }
}

// ---------------------------------------------------------------------------
// Chains
// ---------------------------------------------------------------------------

/// The next state of a chain, or nothing where it fails.
pub open spec fn next_state(kind: RecurrenceKind, limit: int, x: int) -> Option<int> {
    if x % 2 == 0 {
        Some(x / 2)
    } else if 3 * x + 1 <= limit {
        Some(3 * x + 1)
    } else if kind == RecurrenceKind::ThreeThenFour && 4 * x + 1 <= limit {
        Some(4 * x + 1)
    } else {
        None
    }
}

/// The chain from `x` reaches one in `d` steps.
pub open spec fn succeeds(kind: RecurrenceKind, limit: int, x: int, d: nat) -> bool
    decreases d,
{
    if x == 1 {
        d == 0
    } else {
        d > 0 && match next_state(kind, limit, x) {
            Some(y) => succeeds(kind, limit, y, (d - 1) as nat),
            None => false,
        }
    }
}

/// The chain from `x` fails behind `d` steps.
pub open spec fn fails(kind: RecurrenceKind, limit: int, x: int, d: nat) -> bool
    decreases d,
{
    x != 1 && match next_state(kind, limit, x) {
        Some(y) => d > 0 && fails(kind, limit, y, (d - 1) as nat),
        None => d == 0,
    }
}

/// Doubling a state adds one successful step, and does not change whether the
/// chain fails.
pub proof fn doubling_adds_a_step(kind: RecurrenceKind, limit: int, x: int, d: nat)
    requires
        x >= 1,
    ensures
        succeeds(kind, limit, 2 * x, d + 1) <==> succeeds(kind, limit, x, d),
        fails(kind, limit, 2 * x, d + 1) <==> fails(kind, limit, x, d),
{
    assert((2 * x) % 2 == 0);
    assert((2 * x) / 2 == x);
}

/// A chain has one outcome.
pub proof fn outcome_is_unique(kind: RecurrenceKind, limit: int, x: int, d: nat, e: nat)
    requires
        succeeds(kind, limit, x, d),
    ensures
        succeeds(kind, limit, x, e) ==> d == e,
        !fails(kind, limit, x, e),
    decreases d,
{
    if x != 1 {
        if let Some(y) = next_state(kind, limit, x) {
            if e > 0 {
                outcome_is_unique(kind, limit, y, (d - 1) as nat, (e - 1) as nat);
            }
        }
    }
}

// ---------------------------------------------------------------------------
// Grouping
// ---------------------------------------------------------------------------

/// The sum of `g` over `1..=n`.
pub open spec fn total(g: spec_fn(int) -> int, n: nat) -> int
    decreases n,
{
    if n == 0 {
        0
    } else {
        total(g, (n - 1) as nat) + g(n as int)
    }
}

/// The sum of `g` over `x, 2 * x, 4 * x, ...` up to `n`.
pub open spec fn over_doubles(g: spec_fn(int) -> int, x: nat, n: nat) -> int
    decreases
        (if x <= n {
            n + 1 - x
        } else {
            0
        }),
{
    if x == 0 || x > n {
        0
    } else {
        g(x as int) + over_doubles(g, 2 * x, n)
    }
}

/// The sum of `g` over the doubles, up to `n`, of the odd numbers up to `k`.
pub open spec fn over_odds(g: spec_fn(int) -> int, k: nat, n: nat) -> int
    decreases k,
{
    if k == 0 {
        0
    } else {
        over_odds(g, (k - 1) as nat, n) + (if k % 2 == 1 {
            over_doubles(g, k, n)
        } else {
            0
        })
    }
}

/// `n` is `x` times a power of two.
pub open spec fn hits(x: nat, n: nat) -> bool
    decreases
        (if x <= n {
            n + 1 - x
        } else {
            0
        }),
{
    x > 0 && x <= n && (x == n || hits(2 * x, n))
}

/// The odd number of which `n` is a double.
pub open spec fn odd_part(n: nat) -> nat
    decreases n,
{
    if n == 0 || n % 2 == 1 {
        n
    } else {
        odd_part(n / 2)
    }
}

proof fn lemma_over_doubles_step(g: spec_fn(int) -> int, x: nat, n: nat)
    requires
        n >= 1,
        x >= 1,
    ensures
        over_doubles(g, x, n) == over_doubles(g, x, (n - 1) as nat) + (if hits(x, n) {
            g(n as int)
        } else {
            0
        }),
    decreases
        (if x <= n {
            n + 1 - x
        } else {
            0
        }),
{
    if x <= n {
        lemma_over_doubles_step(g, 2 * x, n);
        if x == n {
            assert(!hits(2 * x, n));
            assert(over_doubles(g, 2 * x, n) == 0);
        }
    }
}

proof fn lemma_hits_even(x: nat, m: nat)
    requires
        x >= 1,
    ensures
        hits(2 * x, 2 * m) <==> hits(x, m),
    decreases
        (if x <= m {
            m + 1 - x
        } else {
            0
        }),
{
    if x < m {
        lemma_hits_even(2 * x, m);
    }
}

proof fn lemma_even_misses_odd(x: nat, n: nat)
    requires
        x >= 1,
        x % 2 == 0,
        n % 2 == 1,
    ensures
        !hits(x, n),
    decreases
        (if x <= n {
            n + 1 - x
        } else {
            0
        }),
{
    if x <= n {
        lemma_even_misses_odd(2 * x, n);
    }
}

proof fn lemma_hits_odd_part(x: nat, n: nat)
    requires
        x % 2 == 1,
        n >= 1,
    ensures
        hits(x, n) <==> odd_part(n) == x,
        1 <= odd_part(n) <= n,
        odd_part(n) % 2 == 1,
    decreases n,
{
    if n % 2 == 1 {
        if x != n && x < n {
            lemma_even_misses_odd(2 * x, n);
        }
    } else {
        lemma_hits_odd_part(x, n / 2);
        assert(n == 2 * (n / 2));
        lemma_hits_even(x, n / 2);
        assert(x != n);
        assert(hits(x, n) <==> x <= n && hits(2 * x, n));
        if hits(x, n / 2) {
            assert(x <= n / 2);
        }
    }
}

proof fn lemma_over_odds_step(g: spec_fn(int) -> int, k: nat, n: nat)
    requires
        n >= 1,
    ensures
        over_odds(g, k, n) == over_odds(g, k, (n - 1) as nat) + (if odd_part(n) <= k {
            g(n as int)
        } else {
            0
        }),
    decreases k,
{
    lemma_hits_odd_part(1, n);
    if k > 0 {
        lemma_over_odds_step(g, (k - 1) as nat, n);
        if k % 2 == 1 {
            lemma_over_doubles_step(g, k, n);
            lemma_hits_odd_part(k, n);
        }
    }
}

pub proof fn lemma_odds_beyond(g: spec_fn(int) -> int, k: nat, n: nat)
    requires
        k >= n,
    ensures
        over_odds(g, k, n) == over_odds(g, n, n),
    decreases k,
{
    if k > n {
        lemma_odds_beyond(g, (k - 1) as nat, n);
        assert(over_doubles(g, k, n) == 0);
    }
}

/// Summing over the doubles of every odd number is summing over all numbers.
pub proof fn grouping_keeps_the_sum(g: spec_fn(int) -> int, n: nat)
    ensures
        over_odds(g, n, n) == total(g, n),
    decreases n,
{
    if n > 0 {
        let less = (n - 1) as nat;
        grouping_keeps_the_sum(g, less);
        lemma_over_odds_step(g, n, n);
        lemma_hits_odd_part(1, n);
        lemma_odds_beyond(g, n, less);
    }
}

// ---------------------------------------------------------------------------
// The sum over one group
// ---------------------------------------------------------------------------

/// `base + (base + step) + ...` with `count` terms.
pub open spec fn series(base: int, step: int, count: nat) -> int
    decreases count,
{
    if count == 0 {
        0
    } else {
        series(base, step, (count - 1) as nat) + base + (count - 1) * step
    }
}

/// `0 + 1 + ... + (count - 1)`.
pub open spec fn triangle(count: int) -> int {
    count * (count - 1) / 2
}

proof fn lemma_triangle(count: nat)
    requires
        count >= 1,
    ensures
        triangle(count as int) == triangle(count - 1) + (count - 1),
        triangle(count as int) >= 0,
    decreases count,
{
    let c = count as int;
    assert(c * (c - 1) == (c - 1) * (c - 2) + 2 * (c - 1)) by (nonlinear_arith);
    if count > 1 {
        lemma_triangle((count - 1) as nat);
    }
}

/// The closed form that the helper computes is the sum of the values of the
/// doubles.
pub proof fn closed_form_is_the_series(base: int, step: int, count: nat)
    ensures
        series(base, step, count) == base * count + triangle(count as int) * step,
    decreases count,
{
    let c = count as int;
    if count == 0 {
        assert(base * 0 + triangle(0) * step == 0) by {
            assert(0int * (0int - 1) == 0) by (nonlinear_arith);
            assert(0 * step == 0);
        }
    } else {
        closed_form_is_the_series(base, step, (count - 1) as nat);
        lemma_triangle(count);
        let t = triangle(c - 1);
        assert(base * (c - 1) + t * step + base + (c - 1) * step == base * c + (t + (c - 1)) * step)
            by (nonlinear_arith);
    }
}

/// The number of doubles of `x` up to `n`.
pub open spec fn doubles(x: nat, n: nat) -> nat
    decreases
        (if x <= n {
            n + 1 - x
        } else {
            0
        }),
{
    if x == 0 || x > n {
        0
    } else {
        1 + doubles(2 * x, n)
    }
}

proof fn lemma_last_double(x: nat, n: nat)
    requires
        1 <= x <= n,
    ensures
        doubles(x, n) >= 1,
        x * pow2((doubles(x, n) - 1) as nat) <= n,
    decreases
        (if x <= n {
            n + 1 - x
        } else {
            0
        }),
{
    lemma2_to64();
    if 2 * x <= n {
        lemma_last_double(2 * x, n);
        let d = doubles(2 * x, n);
        lemma_pow2_unfold(d);
        let p = pow2((d - 1) as nat);
        assert(x * (2 * p) == (2 * x) * p) by (nonlinear_arith);
        assert(doubles(x, n) == 1 + d);
    } else {
        assert(doubles(2 * x, n) == 0);
        assert(x * 1 == x);
    }
}

/// Within the safe limit an odd number has fewer doubles than the closed form
/// allows for.
pub proof fn doubles_are_few(x: nat, n: nat)
    requires
        1 <= x <= n,
        n <= SAFE_LIMIT,
    ensures
        1 <= doubles(x, n) < helper::MAX_COPIES,
{
    lemma_last_double(x, n);
    let d = (doubles(x, n) - 1) as nat;
    let p = pow2(d);
    assert(p <= x * p) by (nonlinear_arith)
        requires
            x >= 1,
            p >= 0,
    ;
    lemma2_to64();
    if d >= 30 {
        if d > 30 {
            lemma_pow2_strictly_increases(30, d);
        }
    }
}

/// Under the guards of the helper the closed form does not overflow.
pub proof fn closed_form_does_not_overflow(
    answer: int,
    base: int,
    step: int,
    count: int,
    modulus: int,
)
    requires
        modulus >= 1,
        modulus - 1 + helper::MAX_TRIANGLE <= i32::MAX,
        0 <= answer < modulus,
        0 <= base <= helper::safe_base(modulus),
        0 <= step <= 1,
        1 <= count <= helper::MAX_COPIES,
    ensures
        0 <= count * (count - 1) <= i32::MAX,
        0 <= base * count <= i32::MAX,
        0 <= base * count + triangle(count) * step <= i32::MAX,
        0 <= answer + base * count + triangle(count) * step <= i32::MAX,
{
    let room = i32::MAX - (modulus - 1) - helper::MAX_TRIANGLE;
    assert(base * 31 <= room) by (nonlinear_arith)
        requires
            base <= room / 31,
    ;
    assert(0 <= base * count <= base * 31) by (nonlinear_arith)
        requires
            0 <= base,
            0 <= count <= 31,
    ;
    assert(0 <= count * (count - 1) <= 930) by (nonlinear_arith)
        requires
            1 <= count <= 31,
    ;
    assert(0 <= triangle(count) <= 465);
    assert(0 <= triangle(count) * step <= 465) by (nonlinear_arith)
        requires
            0 <= triangle(count) <= 465,
            0 <= step <= 1,
    ;
}

} // verus!
