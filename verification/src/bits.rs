//! Powers of two.
use vstd::arithmetic::div_mod;
use vstd::arithmetic::power2::{lemma2_to64, lemma_pow2_pos, lemma_pow2_strictly_increases, lemma_pow2_unfold, pow2};
use vstd::prelude::*;

verus! {

/// The exponent, from `s` on, of which `d` is the power of two.
pub open spec fn shift_from(d: int, s: nat) -> Option<u32>
    decreases 31 - s,
{
    if s > 30 {
        None
    } else if d == pow2(s) {
        Some(s as u32)
    } else {
        shift_from(d, s + 1)
    }
}

/// The exponent of which `d` is the power of two.
pub open spec fn shift_of(d: int) -> Option<u32> {
    shift_from(d, 0)
}

pub fn power_of_two_shift(d: i32) -> (r: Option<u32>)
    ensures
        r == shift_of(d as int),
        r matches Some(s) ==> s <= 30 && d == pow2(s as nat),
{
    let mut power: i64 = 1;
    proof {
        lemma2_to64();
    }
    for s in 0u32..31u32
        invariant
            power == pow2(s as nat),
            power <= 0x8000_0000,
            s < 31 ==> power <= 0x4000_0000,
            shift_of(d as int) == shift_from(d as int, s as nat),
    {
        if d as i64 == power {
            return Some(s);
        }
        proof {
            lemma_pow2_unfold((s + 1) as nat);
            lemma2_to64();
            if s + 1 < 30 {
                lemma_pow2_strictly_increases((s + 1) as nat, 30);
            }
        }
        power = power * 2;
    }
    None
}

/// A number is the power of two of its exponent.
pub proof fn shift_is_the_exponent(d: int, s: nat)
    ensures
        shift_from(d, s) matches Some(e) ==> e <= 30 && d == pow2(e as nat),
    decreases 31 - s,
{
    if s <= 30 && d != pow2(s) {
        shift_is_the_exponent(d, s + 1);
    }
}

/// The `s` lowest bits.
pub open spec fn low_bits(s: u32) -> i32 {
    ((1i32 << s) - 1) as i32
}

pub proof fn lemma_power(s: u32)
    requires
        0 <= s <= 30,
    ensures
        (1i32 << s) as int == pow2(s as nat),
        low_bits(s) == pow2(s as nat) - 1,
    decreases s,
{
    lemma2_to64();
    if s == 0 {
        assert(1i32 << 0u32 == 1) by (bit_vector);
    } else {
        lemma_power((s - 1) as u32);
        let p = (s - 1) as u32;
        assert((1i32 << s) == 2 * (1i32 << p)) by (bit_vector)
            requires
                1 <= s <= 30,
                p == s - 1,
        ;
        lemma_pow2_unfold(s as nat);
    }
    assert((1i32 << s) >= 1) by (bit_vector)
        requires
            0 <= s <= 30,
    ;
}

proof fn lemma_halved(y: i32)
    ensures
        y == 2 * (y >> 1u32) + (y & 1i32),
        y & 1i32 == 0 || y & 1i32 == 1,
{
    assert(y == 2 * (y >> 1u32) + (y & 1i32)) by (bit_vector);
    assert(y & 1i32 == 0 || y & 1i32 == 1) by (bit_vector);
}

/// A number is made of what a shift leaves and of its low bits.
pub proof fn lemma_shifted(x: i32, s: u32)
    requires
        0 <= s <= 30,
    ensures
        x == (x >> s) * pow2(s as nat) + (x & low_bits(s)),
        0 <= x & low_bits(s) < pow2(s as nat),
    decreases s,
{
    lemma_power(s);
    lemma2_to64();
    if s == 0 {
        assert(x >> 0u32 == x) by (bit_vector);
        assert(low_bits(0) == 0);
        assert(x & 0i32 == 0) by (bit_vector);
    } else {
        let p = (s - 1) as u32;
        lemma_shifted(x, p);
        lemma_power(p);
        lemma_pow2_unfold(s as nat);
        let y = x >> p;
        let low = low_bits(s);
        let less = low_bits(p);
        let one = 1i32 << p;
        lemma_halved(y);
        assert(x >> s == y >> 1u32) by (bit_vector)
            requires
                1 <= s <= 30,
                p == s - 1,
                y == x >> p,
        ;
        if y & 1i32 == 0 {
            assert(x & low == x & less) by (bit_vector)
                requires
                    1 <= s <= 30,
                    p == s - 1,
                    y == x >> p,
                    y & 1i32 == 0,
                    low == ((1i32 << s) - 1) as i32,
                    less == ((1i32 << p) - 1) as i32,
            ;
        } else {
            assert(x & low == (x & less) + one) by (bit_vector)
                requires
                    1 <= s <= 30,
                    p == s - 1,
                    y == x >> p,
                    y & 1i32 == 1,
                    low == ((1i32 << s) - 1) as i32,
                    less == ((1i32 << p) - 1) as i32,
                    one == 1i32 << p,
            ;
        }
        let q = pow2(p as nat) as int;
        let z = (y >> 1u32) as int;
        let bit = (y & 1i32) as int;
        assert(y * q == z * (2 * q) + bit * q) by (nonlinear_arith)
            requires
                y == 2 * z + bit,
        ;
        assert(bit == 0 ==> bit * q == 0) by (nonlinear_arith);
        assert(bit == 1 ==> bit * q == q) by (nonlinear_arith);
    }
}

/// A shift of a multiple of a power of two is a division.
pub proof fn shifts_divide_multiples(x: i32, s: u32)
    requires
        0 <= s <= 30,
    ensures
        x & low_bits(s) == 0 ==> x as int % pow2(s as nat) as int == 0,
        x as int % pow2(s as nat) as int == 0 ==> (x >> s) as int == x as int / pow2(
            s as nat,
        ) as int,
{
    lemma_shifted(x, s);
    div_mod::lemma_fundamental_div_mod_converse(
        x as int,
        pow2(s as nat) as int,
        (x >> s) as int,
        (x & low_bits(s)) as int,
    );
}

/// Of two powers of two, the one with all the low bits of the other is a
/// multiple of it.
pub proof fn lemma_masks_nested(s: u32, t: u32)
    requires
        0 <= s <= 30,
        0 <= t <= 30,
        (low_bits(t) as u32) & (low_bits(s) as u32) == low_bits(s) as u32,
    ensures
        s <= t,
{
    if s > t {
        let a = low_bits(s);
        let b = low_bits(t);
        assert(!((b as u32) & (a as u32) == a as u32)) by (bit_vector)
            requires
                0 <= t < s <= 30,
                a == ((1i32 << s) - 1) as i32,
                b == ((1i32 << t) - 1) as i32,
        ;
    }
}

/// A multiple of a power of two is one of every smaller power.
pub proof fn lemma_smaller_power(x: int, s: nat, t: nat)
    requires
        s <= t,
        x % pow2(t) as int == 0,
    ensures
        x % pow2(s) as int == 0,
    decreases t - s,
{
    lemma_pow2_pos(s);
    lemma_pow2_pos(t);
    if s < t {
        let u = (t - 1) as nat;
        lemma_pow2_unfold(t);
        lemma_pow2_pos(u);
        let p = pow2(u) as int;
        let q = x / pow2(t) as int;
        div_mod::lemma_fundamental_div_mod(x, pow2(t) as int);
        assert(x == (2 * q) * p) by (nonlinear_arith)
            requires
                x == (2 * p) * q,
        ;
        div_mod::lemma_fundamental_div_mod_converse(x, p, 2 * q, 0);
        lemma_smaller_power(x, s, u);
    }
}

} // verus!
