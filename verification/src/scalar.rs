//! The scalar ring: integers modulo 2^64 with `i64` representatives.

use vstd::prelude::*;
use vstd::arithmetic::div_mod::*;
use vstd::wrapping::i64_specs;

verus! {

/// The number of residues, 2^64.
pub open spec fn modulus() -> int {
    0x1_0000_0000_0000_0000
}

/// The `i64` that is congruent to `x` modulo 2^64.
pub open spec fn wrap(x: int) -> i64 {
    i64_specs::signed_crop(x)
}

/// The multiple of 2^64 by which `wrap(x)` differs from `x`.
pub open spec fn carry(x: int) -> int {
    if x % modulus() > i64::MAX as int {
        -(x / modulus()) - 1
    } else {
        -(x / modulus())
    }
}

/// `wrap(x)` is `x` moved by a whole number of moduli.
pub proof fn lemma_wrap_carry(x: int)
    ensures
        wrap(x) as int == x + modulus() * carry(x),
{
    lemma_fundamental_div_mod(x, modulus());
    assert(modulus() * (-(x / modulus()) - 1) == -(modulus() * (x / modulus())) - modulus())
        by (nonlinear_arith);
    assert(modulus() * (-(x / modulus())) == -(modulus() * (x / modulus())))
        by (nonlinear_arith);
}

/// Moving `x` by a whole number of moduli does not change `wrap(x)`.
pub proof fn lemma_wrap_shift(x: int, q: int)
    ensures
        wrap(x + modulus() * q) == wrap(x),
{
    lemma_mod_multiples_vanish(q, x, modulus());
}

/// Two integers that differ by a multiple of 2^64 wrap to the same scalar.
pub proof fn lemma_wrap_congruent(x: int, y: int, q: int)
    requires
        x == y + modulus() * q,
    ensures
        wrap(x) == wrap(y),
{
    lemma_wrap_shift(y, q);
}

/// A value that already is an `i64` wraps to itself.
pub proof fn lemma_wrap_id(v: i64)
    ensures
        wrap(v as int) == v,
{
    if v >= 0 {
        lemma_small_mod(v as nat, modulus() as nat);
    } else {
        lemma_mod_multiples_vanish(1, v as int, modulus());
        lemma_small_mod((v + modulus()) as nat, modulus() as nat);
    }
}

/// Wrapping is idempotent under sums.
pub proof fn lemma_wrap_add(x: int, y: int)
    ensures
        wrap(wrap(x) + wrap(y)) == wrap(x + y),
{
    lemma_wrap_carry(x);
    lemma_wrap_carry(y);
    assert(wrap(x) + wrap(y) == (x + y) + modulus() * (carry(x) + carry(y)))
        by (nonlinear_arith)
        requires
            wrap(x) as int == x + modulus() * carry(x),
            wrap(y) as int == y + modulus() * carry(y),
    ;
    lemma_wrap_shift(x + y, carry(x) + carry(y));
}

/// Do `x` and `y` differ by a multiple of 2^64?
pub open spec fn congruent(x: int, y: int) -> bool {
    (x - y) % 0x1_0000_0000_0000_0000 == 0
}

/// A witness for the multiple makes two integers congruent.
pub proof fn lemma_congruent_intro(x: int, y: int, q: int)
    requires
        x == y + 0x1_0000_0000_0000_0000 * q,
    ensures
        congruent(x, y),
{
    lemma_mod_multiples_vanish(q, 0, 0x1_0000_0000_0000_0000);
}

/// Congruent integers differ by a multiple, which is returned.
pub proof fn lemma_congruent_elim(x: int, y: int) -> (q: int)
    requires
        congruent(x, y),
    ensures
        x == y + 0x1_0000_0000_0000_0000 * q,
{
    lemma_fundamental_div_mod(x - y, 0x1_0000_0000_0000_0000);
    (x - y) / 0x1_0000_0000_0000_0000
}

/// The multiple by which `wrap(x)` differs from `x`, returned.
pub proof fn lemma_wrap_elim(x: int) -> (q: int)
    ensures
        wrap(x) as int == x + 0x1_0000_0000_0000_0000 * q,
{
    lemma_wrap_carry(x);
    let q = carry(x);
    assert(wrap(x) as int == x + 0x1_0000_0000_0000_0000 * q) by (nonlinear_arith)
        requires
            wrap(x) as int == x + modulus() * q,
            modulus() == 0x1_0000_0000_0000_0000,
    ;
    q
}

/// A product distributes over a sum of five terms.
pub proof fn lemma_product_of_sum(t1: int, t2: int, t3: int, t4: int, t5: int, g: int)
    ensures
        (t1 + t2 + t3 + t4 + t5) * g == t1 * g + t2 * g + t3 * g + t4 * g + t5 * g,
{
    assert((t1 + t2 + t3 + t4 + t5) * g == t1 * g + t2 * g + t3 * g + t4 * g + t5 * g)
        by (nonlinear_arith);
}

/// Two integers whose difference is a multiple of 2^64 wrap alike.
pub proof fn lemma_wrap_by_difference(x: int, y: int)
    requires
        (x - y) % 0x1_0000_0000_0000_0000 == 0,
    ensures
        wrap(x) == wrap(y),
{
    lemma_fundamental_div_mod(x - y, modulus());
    lemma_wrap_congruent(x, y, (x - y) / modulus());
}

/// Sum of two scalars.
pub fn ring_add(a: i64, b: i64) -> (r: i64)
    ensures
        r == wrap(a + b),
{
    proof {
        let s = a + b;
        if s > i64::MAX {
            lemma_wrap_shift(s - modulus(), 1);
            lemma_wrap_id((s - modulus()) as i64);
        } else if s < i64::MIN {
            lemma_wrap_shift(s, 1);
            lemma_wrap_id((s + modulus()) as i64);
        } else {
            lemma_wrap_id(s as i64);
        }
    }
    a.wrapping_add(b)
}

/// Product of two scalars.
pub fn ring_mul(a: i64, b: i64) -> (r: i64)
    ensures
        r == wrap(a * b),
{
    a.wrapping_mul(b)
}

} // verus!
