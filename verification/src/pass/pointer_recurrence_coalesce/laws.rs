//! What coalescing keeps.
use vstd::arithmetic::div_mod;
use vstd::prelude::*;

use crate::ir::{FuncView, ValueId};
use crate::pass::pointer_recurrence_coalesce;
use crate::pass::pointer_recurrence_coalesce::address;
use crate::pass::pointer_recurrence_coalesce::address::AddressView;
use crate::pass::pointer_recurrence_coalesce::pairs;
use crate::pass::pointer_recurrence_coalesce::types::Budget;
use crate::pass::reduction_jam::lanes;
use crate::pass::reduction_jam::laws;
use crate::verify;

verus! {

/// The integer that wraps round.
pub open spec fn wrapped(x: int) -> int {
    (x - i32::MIN) % (address::WORD as int) + i32::MIN
}

proof fn lemma_same_rest(x: int, y: int, m: int)
    requires
        m > 0,
        (x - y) % m == 0,
    ensures
        x % m == y % m,
{
    div_mod::lemma_fundamental_div_mod(x - y, m);
    div_mod::lemma_fundamental_div_mod(y, m);
    let q = (x - y) / m + y / m;
    assert(x == q * m + y % m) by (nonlinear_arith)
        requires
            x - y == m * ((x - y) / m),
            y == m * (y / m) + y % m,
            q == (x - y) / m + y / m,
    ;
    div_mod::lemma_fundamental_div_mod_converse(x, m, q, y % m);
}

proof fn lemma_product(x: int, y: int, m: int)
    requires
        m > 0,
        x % m == 0,
    ensures
        (x * y) % m == 0,
{
    div_mod::lemma_fundamental_div_mod(x, m);
    let q = (x / m) * y;
    assert(x * y == q * m) by (nonlinear_arith)
        requires
            x == m * (x / m),
            q == (x / m) * y,
    ;
    div_mod::lemma_mod_multiples_basic(q, m);
}

proof fn lemma_total(x: int, y: int, m: int)
    requires
        m > 0,
        x % m == 0,
        y % m == 0,
    ensures
        (x + y) % m == 0,
{
    div_mod::lemma_fundamental_div_mod(x, m);
    div_mod::lemma_fundamental_div_mod(y, m);
    let q = x / m + y / m;
    assert(x + y == q * m) by (nonlinear_arith)
        requires
            x == m * (x / m),
            y == m * (y / m),
            q == x / m + y / m,
    ;
    div_mod::lemma_mod_multiples_basic(q, m);
}

/// A counter that starts at a constant never leaves its range, though it may
/// wrap round.
pub proof fn a_counter_stays_in_its_range(initial: i32, step: i32, rounds: nat)
    requires
        step != 0,
    ensures
        ({
            let m = address::modulus_of(step) as int;
            let v = wrapped(initial + rounds * step);
            address::least_like(initial as int, m) <= v <= address::greatest_like(
                initial as int,
                m,
            )
        }),
{
    let word = address::WORD as int;
    let size = lanes::magnitude(step as int);
    laws::gcd_divides(size, address::WORD as nat);
    let m = address::modulus_of(step) as int;
    let x = initial + rounds * step;
    let v = wrapped(x);
    // The counter and its start differ by multiples of the step and of a word.
    if step < 0 {
        lemma_product(size as int, -1, m);
    }
    assert(step as int % m == 0);
    lemma_product(step as int, rounds as int, m);
    assert(rounds * step == step * rounds as int) by (nonlinear_arith);
    div_mod::lemma_fundamental_div_mod(x - i32::MIN, word);
    let q = (x - i32::MIN) / word;
    lemma_product(word, -q, m);
    assert(v - x == word * (-q)) by (nonlinear_arith)
        requires
            x - i32::MIN == word * q + (x - i32::MIN) % word,
            v == (x - i32::MIN) % word + i32::MIN,
    ;
    lemma_total(v - x, x - initial, m);
    assert((v - initial) % m == 0);
    lemma_same_rest(v - i32::MIN, initial - i32::MIN, m);
    div_mod::lemma_mod_decreases((v - i32::MIN) as nat, m as nat);
    lemma_product(v - initial, -1, m);
    assert((v - initial) * -1 == (i32::MAX - v) - (i32::MAX - initial));
    lemma_same_rest(i32::MAX - v, i32::MAX - initial, m);
    div_mod::lemma_mod_decreases((i32::MAX - v) as nat, m as nat);
}

/// An index that does not wrap is the sum of its parts.
pub proof fn an_index_that_does_not_wrap_is_the_sum(
    term: ValueId,
    constant: int,
    ranges: Seq<Option<(i64, i64)>>,
    value: int,
)
    requires
        address::does_not_wrap(Some(term), constant, ranges),
        i32::MIN <= value <= i32::MAX,
        ranges[term.0 as int] matches Some((low, high)) ==> low <= value <= high,
    ensures
        wrapped(value + constant) == value + constant,
{
    div_mod::lemma_small_mod((value + constant - i32::MIN) as nat, address::WORD as nat);
}

/// What the first `n` terms are, when their values are given.
pub open spec fn summed(terms: Seq<(ValueId, i64)>, values: spec_fn(ValueId) -> int, n: int) -> int
    decreases n,
{
    if n <= 0 {
        0
    } else {
        summed(terms, values, n - 1) + terms[n - 1].1 * values(terms[n - 1].0)
    }
}

/// The address, when its root and the values of its terms are given.
pub open spec fn located(a: AddressView, root: int, values: spec_fn(ValueId) -> int) -> int {
    root + summed(a.terms, values, a.terms.len() as int) + a.offset
}

/// The pointer after so many rounds.
pub open spec fn walked(start: int, step: int, size: int, rounds: nat) -> int {
    start + rounds * (step * size)
}

/// Pointers found a distance apart are that far apart in every round.
pub proof fn coalesced_pointers_stay_apart(
    f: FuncView,
    unique: Seq<Seq<char>>,
    primary: AddressView,
    secondary: AddressView,
    size: int,
    b: Budget,
    root: int,
    values: spec_fn(ValueId) -> int,
    step: int,
    rounds: nat,
)
    requires
        size > 0,
        pairs::addresses_apart(f, unique, primary, secondary, size, b) matches Some((Some(_), _)),
    ensures
        pairs::addresses_apart(f, unique, primary, secondary, size, b) matches Some((Some(d), _))
            && walked(located(primary, root, values), step, size, rounds) + d * size == walked(
            located(secondary, root, values),
            step,
            size,
            rounds,
        ),
{
    let bytes = secondary.offset - primary.offset;
    div_mod::lemma_fundamental_div_mod(bytes, size);
    let d = bytes / size;
    assert(bytes == d * size) by (nonlinear_arith)
        requires
            bytes == size * d,
    ;
}

/// The pass keeps functions valid.
pub proof fn coalescing_keeps_validity(f: FuncView, unique: Seq<Seq<char>>)
    requires
        verify::valid(f),
    ensures
        verify::valid(pointer_recurrence_coalesce::coalesced(f, unique)),
{
}

} // verus!
