//! What jamming keeps.
use vstd::arithmetic::div_mod;
use vstd::prelude::*;

use crate::ir::FuncView;
use crate::pass::reduction_jam;
use crate::pass::reduction_jam::lanes;
use crate::pass::reduction_jam::lanes::AccessView;
use crate::verify;

verus! {

/// What the first `n` indices add to an address.
pub open spec fn indexed(strides: Seq<i64>, indices: Seq<int>, n: int) -> int
    decreases n,
{
    if n <= 0 {
        0
    } else {
        indexed(strides, indices, n - 1) + strides[n - 1] * indices[n - 1]
    }
}

/// The offset of an access within its global, when the indices that are
/// neither constant nor the counter have the given values, and the counter is
/// `counter`.
pub open spec fn offset_of(a: AccessView, indices: Seq<int>, counter: int) -> int {
    a.constant_offset + indexed(a.prefix_strides, indices, a.prefix_strides.len() as int)
        + a.terminal_stride * counter
}

proof fn lemma_multiple(x: int, g: int, y: int)
    requires
        g > 0,
        x % g == 0,
    ensures
        (x * y) % g == 0,
{
    div_mod::lemma_fundamental_div_mod(x, g);
    let q = x / g;
    assert(x * y == g * (q * y)) by (nonlinear_arith)
        requires
            x == g * q,
    ;
    div_mod::lemma_mod_multiples_basic(q * y, g);
    assert(g * (q * y) == (q * y) * g) by (nonlinear_arith);
}

proof fn lemma_sum(x: int, y: int, g: int)
    requires
        g > 0,
        x % g == 0,
        y % g == 0,
    ensures
        (x + y) % g == 0,
        (x - y) % g == 0,
{
    div_mod::lemma_fundamental_div_mod(x, g);
    div_mod::lemma_fundamental_div_mod(y, g);
    let p = x / g;
    let q = y / g;
    assert(x + y == (p + q) * g) by (nonlinear_arith)
        requires
            x == g * p,
            y == g * q,
    ;
    assert(x - y == (p - q) * g) by (nonlinear_arith)
        requires
            x == g * p,
            y == g * q,
    ;
    div_mod::lemma_mod_multiples_basic(p + q, g);
    div_mod::lemma_mod_multiples_basic(p - q, g);
}

/// Divisibility is transitive.
proof fn lemma_divides(x: int, h: int, g: int)
    requires
        g > 0,
        h > 0,
        x % h == 0,
        h % g == 0,
    ensures
        x % g == 0,
{
    div_mod::lemma_fundamental_div_mod(x, h);
    lemma_multiple(h, g, x / h);
}

/// The greatest common divisor divides both numbers.
pub proof fn gcd_divides(a: nat, b: nat)
    requires
        a > 0,
    ensures
        lanes::gcd(a, b) > 0,
        a as int % lanes::gcd(a, b) as int == 0,
        b as int % lanes::gcd(a, b) as int == 0,
    decreases b,
{
    if b == 0 {
        assert(lanes::gcd(a, b) == a);
        div_mod::lemma_mod_self_0(a as int);
        div_mod::lemma_small_mod(0, a);
    } else {
        gcd_divides(b, a % b);
        let g = lanes::gcd(b, a % b) as int;
        assert(lanes::gcd(a, b) == g);
        div_mod::lemma_fundamental_div_mod(a as int, b as int);
        lemma_multiple(b as int, g, a as int / b as int);
        lemma_sum(b as int * (a as int / b as int), (a % b) as int, g);
    }
}

proof fn lemma_gcd_from(g: nat, strides: Seq<i64>, k: int)
    requires
        g > 0,
        0 <= k <= strides.len(),
    ensures
        lanes::gcd_from(g, strides, k) > 0,
        g as int % lanes::gcd_from(g, strides, k) as int == 0,
        forall|j: int|
            k <= j < strides.len() ==> (#[trigger] strides[j]) as int % lanes::gcd_from(
                g,
                strides,
                k,
            ) as int == 0,
    decreases strides.len() - k,
{
    let d = lanes::gcd_from(g, strides, k) as int;
    if k < strides.len() {
        let m = lanes::magnitude(strides[k] as int);
        let h = lanes::gcd(g, m);
        gcd_divides(g, m);
        lemma_gcd_from(h, strides, k + 1);
        lemma_divides(g as int, h as int, d);
        lemma_divides(m as int, h as int, d);
        if strides[k] < 0 {
            lemma_multiple(m as int, d, -1);
        }
        assert(strides[k] as int % d == 0);
    } else {
        div_mod::lemma_mod_self_0(g as int);
    }
}

proof fn lemma_indexed(strides: Seq<i64>, indices: Seq<int>, g: int, n: int)
    requires
        g > 0,
        0 <= n <= strides.len(),
        forall|j: int| 0 <= j < strides.len() ==> (#[trigger] strides[j]) as int % g == 0,
    ensures
        indexed(strides, indices, n) % g == 0,
    decreases n,
{
    if n > 0 {
        lemma_indexed(strides, indices, g, n - 1);
        lemma_multiple(strides[n - 1] as int, g, indices[n - 1]);
        lemma_sum(indexed(strides, indices, n - 1), strides[n - 1] * indices[n - 1], g);
    } else {
        div_mod::lemma_small_mod(0, g as nat);
    }
}

/// The step divides the modulus of addresses, all strides, and the difference
/// of the strides of the counter.
proof fn lemma_step(store: AccessView, load: AccessView)
    ensures
        lanes::step_of(store, load) > 0,
        lanes::ADDRESS_MODULUS as int % lanes::step_of(store, load) as int == 0,
        forall|j: int|
            0 <= j < store.prefix_strides.len() ==> (#[trigger] store.prefix_strides[j]) as int
                % lanes::step_of(store, load) as int == 0,
        forall|j: int|
            0 <= j < load.prefix_strides.len() ==> (#[trigger] load.prefix_strides[j]) as int
                % lanes::step_of(store, load) as int == 0,
        (load.terminal_stride - store.terminal_stride) % lanes::step_of(store, load) as int == 0,
{
    let d = load.terminal_stride - store.terminal_stride;
    let m = lanes::magnitude(d);
    let g1 = lanes::gcd_from(lanes::ADDRESS_MODULUS as nat, store.prefix_strides, 0);
    let g2 = lanes::gcd_from(g1, load.prefix_strides, 0);
    let g = lanes::step_of(store, load) as int;
    lemma_gcd_from(lanes::ADDRESS_MODULUS as nat, store.prefix_strides, 0);
    lemma_gcd_from(g1, load.prefix_strides, 0);
    gcd_divides(g2, m);
    lemma_divides(g1 as int, g2 as int, g);
    lemma_divides(lanes::ADDRESS_MODULUS as int, g1 as int, g);
    assert forall|j: int| 0 <= j < store.prefix_strides.len() implies (
    #[trigger] store.prefix_strides[j]) as int % g == 0 by {
        lemma_divides(store.prefix_strides[j] as int, g1 as int, g);
    }
    assert forall|j: int| 0 <= j < load.prefix_strides.len() implies (
    #[trigger] load.prefix_strides[j]) as int % g == 0 by {
        lemma_divides(load.prefix_strides[j] as int, g2 as int, g);
    }
    if d < 0 {
        lemma_multiple(m as int, g, -1);
    }
}

/// Accesses that are found apart do not touch: whatever the indices and the
/// counter, no byte that the store writes in its lane is, in the address space,
/// a byte that the load reads in its lane.
pub proof fn apart_accesses_do_not_touch(
    store: AccessView,
    s: int,
    load: AccessView,
    l: int,
    store_indices: Seq<int>,
    load_indices: Seq<int>,
    counter: int,
    written: int,
    read: int,
)
    requires
        lanes::is_apart(store, s, load, l),
        0 <= written < store.width,
        0 <= read < load.width,
    ensures
        (offset_of(load, load_indices, counter + l) + read - (offset_of(
            store,
            store_indices,
            counter + s,
        ) + written)) % lanes::ADDRESS_MODULUS as int != 0,
{
    let g = lanes::step_of(store, load) as int;
    let m = lanes::ADDRESS_MODULUS as int;
    let d = lanes::lane_difference(store, s, load, l)->0;
    lemma_step(store, load);
    let a = indexed(load.prefix_strides, load_indices, load.prefix_strides.len() as int);
    let b = indexed(store.prefix_strides, store_indices, store.prefix_strides.len() as int);
    lemma_indexed(load.prefix_strides, load_indices, g, load.prefix_strides.len() as int);
    lemma_indexed(store.prefix_strides, store_indices, g, store.prefix_strides.len() as int);
    let t = load.terminal_stride - store.terminal_stride;
    lemma_multiple(t, g, counter);
    lemma_sum(a, b, g);
    lemma_sum(a - b, t * counter, g);
    let rest = a - b + t * counter;
    let total = offset_of(load, load_indices, counter + l) + read - (offset_of(
        store,
        store_indices,
        counter + s,
    ) + written);
    let (tl, ts) = (load.terminal_stride as int, store.terminal_stride as int);
    assert(tl * (counter + l) - ts * (counter + s) == t * counter + (tl * l - ts * s))
        by (nonlinear_arith)
        requires
            t == tl - ts,
    ;
    assert(total == d + rest + read - written);
    if total % m == 0 {
        lemma_divides(total, m, g);
        lemma_sum(total, rest, g);
        lemma_multiple(total - rest, g, -1);
        let x = written - read;
        assert((total - rest) * -1 == x - d);
        assert((x - d) % g == 0);
        assert(lanes::interval_hits(-(load.width - 1), store.width - 1, d, g));
    }
}

/// A multiple of the greatest common divisor is a combination of the numbers.
proof fn lemma_combination(a: nat, b: nat, z: int) -> (r: (int, int))
    requires
        a > 0,
        z % lanes::gcd(a, b) as int == 0,
    ensures
        z == a * r.0 + b * r.1,
    decreases b,
{
    if b == 0 {
        assert(lanes::gcd(a, b) == a);
        div_mod::lemma_fundamental_div_mod(z, a as int);
        (z / a as int, 0)
    } else {
        assert(lanes::gcd(a, b) == lanes::gcd(b, a % b));
        let (p, q) = lemma_combination(b, a % b, z);
        let c = a as int / b as int;
        let rest = a as int % b as int;
        div_mod::lemma_fundamental_div_mod(a as int, b as int);
        assert(z == a * q + b * (p - c * q)) by (nonlinear_arith)
            requires
                z == b * p + rest * q,
                a == b * c + rest,
        ;
        (q, p - c * q)
    }
}

/// What one index adds to an address.
proof fn lemma_updated(strides: Seq<i64>, indices: Seq<int>, k: int, y: int, n: int)
    requires
        0 <= k < strides.len(),
        indices.len() == strides.len(),
        indices[k] == 0,
        0 <= n <= strides.len(),
    ensures
        indexed(strides, indices.update(k, y), n) == indexed(strides, indices, n) + (if k < n {
            strides[k] * y
        } else {
            0
        }),
    decreases n,
{
    if n > 0 {
        lemma_updated(strides, indices, k, y, n - 1);
        assert(strides[n - 1] * 0 == 0);
    }
}

proof fn lemma_no_indices(strides: Seq<i64>, indices: Seq<int>, n: int)
    requires
        0 <= n <= strides.len(),
        indices.len() == strides.len(),
        forall|j: int| 0 <= j < indices.len() ==> #[trigger] indices[j] == 0,
    ensures
        indexed(strides, indices, n) == 0,
    decreases n,
{
    if n > 0 {
        lemma_no_indices(strides, indices, n - 1);
        assert(strides[n - 1] * 0 == 0);
    }
}

/// The indices from place `k` on reach every multiple of the common divisor.
proof fn lemma_reached(g: nat, strides: Seq<i64>, k: int, z: int) -> (r: (int, Seq<int>))
    requires
        g > 0,
        0 <= k <= strides.len(),
        z % lanes::gcd_from(g, strides, k) as int == 0,
    ensures
        r.1.len() == strides.len(),
        forall|j: int| 0 <= j < k ==> #[trigger] r.1[j] == 0,
        z == g * r.0 + indexed(strides, r.1, strides.len() as int),
    decreases strides.len() - k,
{
    let n = strides.len() as int;
    if k < strides.len() {
        let m = lanes::magnitude(strides[k] as int);
        let h = lanes::gcd(g, m);
        gcd_divides(g, m);
        let (q, rest) = lemma_reached(h, strides, k + 1, z);
        div_mod::lemma_mod_multiples_basic(q, h as int);
        assert(h * q == q * h) by (nonlinear_arith);
        let (x, y) = lemma_combination(g, m, h * q);
        let v = if strides[k] < 0 {
            -y
        } else {
            y
        };
        let stride = strides[k] as int;
        assert(stride * v == m * y) by (nonlinear_arith)
            requires
                (m == stride && v == y) || (m == -stride && v == -y),
        ;
        lemma_updated(strides, rest, k, v, n);
        (x, rest.update(k, v))
    } else {
        let none = Seq::new(strides.len(), |j: int| 0int);
        lemma_no_indices(strides, none, n);
        div_mod::lemma_fundamental_div_mod(z, g as int);
        (z / g as int, none)
    }
}

/// The given byte that the store writes in its lane is, in the address space,
/// the given byte that the load reads in its lane.
pub open spec fn touches(
    store: AccessView,
    s: int,
    load: AccessView,
    l: int,
    store_indices: Seq<int>,
    load_indices: Seq<int>,
    counter: int,
    written: int,
    read: int,
) -> bool {
    &&& 0 <= written < store.width
    &&& 0 <= read < load.width
    &&& (offset_of(load, load_indices, counter + l) + read - (offset_of(
        store,
        store_indices,
        counter + s,
    ) + written)) % lanes::ADDRESS_MODULUS as int == 0
}

/// Accesses whose difference is known and that are not found apart can touch:
/// for some indices and some counter, a byte that the store writes in its lane
/// is, in the address space, a byte that the load reads in its lane.
pub proof fn accesses_that_are_not_apart_can_touch(store: AccessView, s: int, load: AccessView, l: int)
    requires
        !lanes::is_apart(store, s, load, l),
        lanes::lane_difference(store, s, load, l) is Some,
        store.width > 0,
        load.width > 0,
    ensures
        exists|
            store_indices: Seq<int>,
            load_indices: Seq<int>,
            counter: int,
            written: int,
            read: int,
        |
            #[trigger] touches(
                store,
                s,
                load,
                l,
                store_indices,
                load_indices,
                counter,
                written,
                read,
            ),
{
    let m = lanes::ADDRESS_MODULUS as int;
    let d = lanes::lane_difference(store, s, load, l)->0;
    let t = load.terminal_stride - store.terminal_stride;
    let size = lanes::magnitude(t);
    let g1 = lanes::gcd_from(lanes::ADDRESS_MODULUS as nat, store.prefix_strides, 0);
    let g2 = lanes::gcd_from(g1, load.prefix_strides, 0);
    let g = lanes::step_of(store, load) as int;
    lemma_gcd_from(lanes::ADDRESS_MODULUS as nat, store.prefix_strides, 0);
    lemma_gcd_from(g1, load.prefix_strides, 0);
    assert(lanes::interval_hits(-(load.width - 1), store.width - 1, d, g));
    let x = choose|x: int|
        -(load.width - 1) <= x <= store.width - 1 && #[trigger] ((x - d) % g) == 0;
    let (p, y) = lemma_combination(g2, size, x - d);
    let counter = if t < 0 {
        -y
    } else {
        y
    };
    assert(t * counter == size * y) by (nonlinear_arith)
        requires
            (size == t && counter == y) || (size == -t && counter == -y),
    ;
    div_mod::lemma_mod_multiples_basic(p, g2 as int);
    assert(g2 * p == p * g2) by (nonlinear_arith);
    let (q, load_indices) = lemma_reached(g1, load.prefix_strides, 0, g2 * p);
    div_mod::lemma_mod_multiples_basic(-q, g1 as int);
    assert(-(g1 * q) == -q * g1) by (nonlinear_arith);
    let (r, store_indices) = lemma_reached(
        lanes::ADDRESS_MODULUS as nat,
        store.prefix_strides,
        0,
        -(g1 * q),
    );
    let written = if x >= 0 {
        x
    } else {
        0
    };
    let read = written - x;
    let (tl, ts) = (load.terminal_stride as int, store.terminal_stride as int);
    assert(tl * (counter + l) - ts * (counter + s) == t * counter + (tl * l - ts * s))
        by (nonlinear_arith)
        requires
            t == tl - ts,
    ;
    let total = offset_of(load, load_indices, counter + l) + read - (offset_of(
        store,
        store_indices,
        counter + s,
    ) + written);
    assert(total == m * r);
    div_mod::lemma_mod_multiples_basic(r, m);
    assert(m * r == r * m) by (nonlinear_arith);
    assert(touches(store, s, load, l, store_indices, load_indices, counter, written, read));
}

/// The pass keeps functions valid.
pub proof fn jamming_keeps_validity(f: FuncView, max_factor: int)
    requires
        verify::valid(f),
    ensures
        verify::valid(reduction_jam::jammed(f, max_factor)),
{
}

/// The pass rewrites a function only once.
pub proof fn jamming_is_done_once(f: FuncView, max_factor: int, other: int)
    requires
        reduction_jam::jammed(f, max_factor) != f,
    ensures
        reduction_jam::jammed(reduction_jam::jammed(f, max_factor), other)
            == reduction_jam::jammed(f, max_factor),
{
    let g = reduction_jam::jammed(f, max_factor);
    assert(g.reduction_jammed);
}

} // verus!
