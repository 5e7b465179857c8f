//! Powers of two, logarithms and bit counts, as mathematics.
use vstd::arithmetic::div_mod::*;
use vstd::arithmetic::mul::*;
use vstd::arithmetic::power2::*;
use vstd::prelude::*;

verus! {

/// The least `y` with `x <= 2^y` (see [`lemma_clog2`]).
pub open spec fn clog2(x: nat) -> nat
    decreases x,
{
    if x <= 1 {
        0
    } else {
        1 + clog2(((x + 1) / 2) as nat)
    }
}

/// The greatest `y` with `2^y <= x` (see [`lemma_flog2`]).
pub open spec fn flog2(x: nat) -> nat
    decreases x,
{
    if x <= 1 {
        0
    } else {
        1 + flog2(x / 2)
    }
}

/// The number of one bits in the binary representation of `x`.
pub open spec fn ones(x: nat) -> nat
    decreases x,
{
    if x == 0 {
        0
    } else {
        x % 2 + ones(x / 2)
    }
}

/// Powers of two never decrease with the exponent.
pub proof fn lemma_pow2_monotone(a: nat, b: nat)
    requires
        a <= b,
    ensures
        pow2(a) <= pow2(b),
{
    if a < b {
        lemma_pow2_strictly_increases(a, b);
    }
}

/// Every exponent up to 64 gives a power of two of at most `2^64`; below 64 it fits in `u64`.
pub proof fn lemma_pow2_u64(j: nat)
    requires
        j <= 64,
    ensures
        0 < pow2(j) <= 0x1_0000_0000_0000_0000,
        j < 64 ==> pow2(j) <= 0x8000_0000_0000_0000,
{
    lemma2_to64();
    lemma2_to64_rest();
    lemma_pow2_pos(j);
    lemma_pow2_monotone(j, 64);
    if j < 64 {
        lemma_pow2_monotone(j, 63);
    }
}

/// `clog2(x)` is the least exponent whose power of two reaches `x`.
pub proof fn lemma_clog2(x: nat)
    requires
        x >= 1,
    ensures
        x <= pow2(clog2(x)),
        clog2(x) >= 1 <==> x >= 2,
        x >= 2 ==> pow2((clog2(x) - 1) as nat) < x,
    decreases x,
{
    lemma2_to64();
    if x >= 2 {
        let y = ((x + 1) / 2) as nat;
        lemma_clog2(y);
        lemma_pow2_unfold(clog2(x));
        if y >= 2 {
            lemma_pow2_unfold(clog2(y));
        } else {
            assert(x == 2);
            assert(clog2(2) == 1) by {
                reveal_with_fuel(clog2, 2);
            }
        }
    }
}

/// The two bounds of [`lemma_clog2`] leave no other exponent.
pub proof fn lemma_clog2_unique(x: nat, y: nat)
    requires
        x >= 1,
        x <= pow2(y),
        y >= 1 ==> pow2((y - 1) as nat) < x,
    ensures
        clog2(x) == y,
{
    lemma2_to64();
    lemma_clog2(x);
    let c = clog2(x);
    if c < y {
        lemma_pow2_monotone(c, (y - 1) as nat);
    }
    if c > y {
        lemma_pow2_monotone(y, (c - 1) as nat);
    }
}

/// The logarithm never decreases, and a power of two bounds it.
pub proof fn lemma_clog2_bound(x: nat, y: nat)
    requires
        1 <= x <= pow2(y),
    ensures
        clog2(x) <= y,
{
    lemma_clog2(x);
    if clog2(x) > y {
        lemma_pow2_monotone(y, (clog2(x) - 1) as nat);
    }
}

/// `flog2(x)` is the greatest exponent whose power of two `x` reaches.
pub proof fn lemma_flog2(x: nat)
    requires
        x >= 1,
    ensures
        pow2(flog2(x)) <= x < pow2(flog2(x) + 1),
    decreases x,
{
    lemma2_to64();
    if x >= 2 {
        lemma_flog2(x / 2);
        lemma_pow2_unfold(flog2(x));
        lemma_pow2_unfold(flog2(x) + 1);
    }
}

/// The two bounds of [`lemma_flog2`] leave no other exponent.
pub proof fn lemma_flog2_unique(x: nat, y: nat)
    requires
        pow2(y) <= x < pow2(y + 1),
    ensures
        flog2(x) == y,
{
    lemma_pow2_pos(y);
    lemma_flog2(x);
    let f = flog2(x);
    if f < y {
        lemma_pow2_monotone(f + 1, y);
    }
    if f > y {
        lemma_pow2_monotone(y + 1, f);
    }
}

/// Adding a multiple of `2^a` does not change a remainder below `2^b` for `b <= a`.
pub proof fn lemma_mod_aligned(q: nat, r: nat, a: nat, b: nat)
    requires
        b <= a,
        r < pow2(b),
    ensures
        (q * pow2(a) + r) % pow2(b) == r,
{
    lemma_pow2_pos(b);
    lemma_pow2_adds(b, (a - b) as nat);
    let f = pow2((a - b) as nat);
    lemma_mul_is_associative(q as int, f as int, pow2(b) as int);
    lemma_mul_is_commutative(f as int, pow2(b) as int);
    lemma_fundamental_div_mod_converse(
        (q * pow2(a) + r) as int,
        pow2(b) as int,
        (q * f) as int,
        r as int,
    );
}

/// What `2^a` divides, every smaller power of two divides.
pub proof fn lemma_mod_divides(x: nat, a: nat, b: nat)
    requires
        b <= a,
        x % pow2(a) == 0,
    ensures
        x % pow2(b) == 0,
{
    lemma_pow2_pos(a);
    lemma_pow2_pos(b);
    lemma_fundamental_div_mod(x as int, pow2(a) as int);
    lemma_mul_is_commutative(pow2(a) as int, (x / pow2(a)) as int);
    lemma_mod_aligned(x / pow2(a), 0, a, b);
}

/// A multiple of `2^a` plus a remainder below `2^b`, for `b <= a`, leaves that remainder.
pub proof fn lemma_mod_of_sum(x: nat, r: nat, a: nat, b: nat)
    requires
        b <= a,
        x % pow2(a) == 0,
        r < pow2(b),
    ensures
        (x + r) % pow2(b) == r,
{
    lemma_pow2_pos(a);
    lemma_fundamental_div_mod(x as int, pow2(a) as int);
    lemma_mul_is_commutative(pow2(a) as int, (x / pow2(a)) as int);
    lemma_mod_aligned(x / pow2(a), r, a, b);
}

/// Taking the remainder away leaves a multiple.
pub proof fn lemma_mod_rest(x: nat, a: nat)
    ensures
        x % pow2(a) <= x,
        x % pow2(a) < pow2(a),
        (x - x % pow2(a)) % pow2(a) as int == 0,
{
    lemma_pow2_pos(a);
    let d = pow2(a) as int;
    lemma_mod_bound(x as int, d);
    lemma_fundamental_div_mod(x as int, d);
    let q = x as int / d;
    assert(d * q >= 0) by (nonlinear_arith)
        requires
            d > 0,
            q >= 0,
    ;
    lemma_mul_is_commutative(d, q);
    lemma_fundamental_div_mod_converse(d * q, d, q, 0);
}

} // verus!
