//! GF(2^8) finite field arithmetic.
//!
//! Operations use the irreducible polynomial x^8 + x^4 + x^3 + x^2 + 1
//! (0x11D). Addition in the field is XOR.
use vstd::prelude::*;

verus! {

/// Multiplication by x: shift left, reduce by the field polynomial.
pub open spec fn xtime(a: u8) -> u8 {
    if a & 0x80u8 != 0 {
        (a << 1u8) ^ 0x1Du8
    } else {
        a << 1u8
    }
}

/// `a` where bit `i` of `b` is set, else 0.
pub open spec fn select_bit(a: u8, b: u8, i: u8) -> u8 {
    if (b >> i) & 1u8 != 0 {
        a
    } else {
        0
    }
}

/// The sum of those `ai` whose bit `i` is set in `b`.
pub open spec fn sum_bits(
    a0: u8,
    a1: u8,
    a2: u8,
    a3: u8,
    a4: u8,
    a5: u8,
    a6: u8,
    a7: u8,
    b: u8,
) -> u8 {
    select_bit(a0, b, 0) ^ select_bit(a1, b, 1) ^ select_bit(a2, b, 2) ^ select_bit(a3, b, 3)
        ^ select_bit(a4, b, 4) ^ select_bit(a5, b, 5) ^ select_bit(a6, b, 6) ^ select_bit(a7, b, 7)
}

/// Product of two field elements: the sum of `a * x^i` over the set bits `i`
/// of `b`.
#[verifier::opaque]
pub open spec fn gf_mul(a: u8, b: u8) -> u8 {
    let a1 = xtime(a);
    let a2 = xtime(a1);
    let a3 = xtime(a2);
    let a4 = xtime(a3);
    let a5 = xtime(a4);
    let a6 = xtime(a5);
    let a7 = xtime(a6);
    sum_bits(a, a1, a2, a3, a4, a5, a6, a7, b)
}

/// `base` multiplied by itself `exp` times.
pub open spec fn gf_pow(base: u8, exp: nat) -> u8
    decreases exp,
{
    if exp == 0 {
        1
    } else {
        gf_mul(gf_pow(base, (exp - 1) as nat), base)
    }
}

proof fn lemma_xtime_linear(a: u8, b: u8)
    ensures
        xtime(a ^ b) == xtime(a) ^ xtime(b),
{
    assert(xtime(a ^ b) == xtime(a) ^ xtime(b)) by (bit_vector);
}

proof fn lemma_powers_of_x()
    ensures
        xtime(1) == 2,
        xtime(2) == 4,
        xtime(4) == 8,
        xtime(8) == 16,
        xtime(16) == 32,
        xtime(32) == 64,
        xtime(64) == 128,
{
    assert(xtime(1) == 2 && xtime(2) == 4 && xtime(4) == 8 && xtime(8) == 16 && xtime(16) == 32
        && xtime(32) == 64 && xtime(64) == 128) by (bit_vector);
}

proof fn lemma_mul_one_bit(a: u8)
    ensures
        gf_mul(a, 1) == a,
        gf_mul(1, a) == a,
{
    reveal(gf_mul);
    let a1 = xtime(a);
    let a2 = xtime(a1);
    let a3 = xtime(a2);
    let a4 = xtime(a3);
    let a5 = xtime(a4);
    let a6 = xtime(a5);
    let a7 = xtime(a6);
    assert(sum_bits(a, a1, a2, a3, a4, a5, a6, a7, 1) == a) by (bit_vector);
    lemma_powers_of_x();
    assert(sum_bits(1, 2, 4, 8, 16, 32, 64, 128, a) == a) by (bit_vector);
}

/// Multiplication distributes over addition in the right factor.
proof fn lemma_mul_distributes_right(c: u8, a: u8, b: u8)
    ensures
        gf_mul(c, a ^ b) == gf_mul(c, a) ^ gf_mul(c, b),
{
    reveal(gf_mul);
    let c1 = xtime(c);
    let c2 = xtime(c1);
    let c3 = xtime(c2);
    let c4 = xtime(c3);
    let c5 = xtime(c4);
    let c6 = xtime(c5);
    let c7 = xtime(c6);
    assert(sum_bits(c, c1, c2, c3, c4, c5, c6, c7, a ^ b) == sum_bits(c, c1, c2, c3, c4, c5, c6, c7, a) ^ sum_bits(c, c1, c2, c3, c4, c5, c6, c7, b))
        by (bit_vector);
}

/// Multiplication distributes over addition in the left factor.
proof fn lemma_mul_distributes_left(a: u8, b: u8, c: u8)
    ensures
        gf_mul(a ^ b, c) == gf_mul(a, c) ^ gf_mul(b, c),
{
    reveal(gf_mul);
    let a1 = xtime(a);
    let a2 = xtime(a1);
    let a3 = xtime(a2);
    let a4 = xtime(a3);
    let a5 = xtime(a4);
    let a6 = xtime(a5);
    let a7 = xtime(a6);
    let b1 = xtime(b);
    let b2 = xtime(b1);
    let b3 = xtime(b2);
    let b4 = xtime(b3);
    let b5 = xtime(b4);
    let b6 = xtime(b5);
    let b7 = xtime(b6);
    lemma_xtime_linear(a, b);
    lemma_xtime_linear(a1, b1);
    lemma_xtime_linear(a2, b2);
    lemma_xtime_linear(a3, b3);
    lemma_xtime_linear(a4, b4);
    lemma_xtime_linear(a5, b5);
    lemma_xtime_linear(a6, b6);
    assert(sum_bits(a ^ b, a1 ^ b1, a2 ^ b2, a3 ^ b3, a4 ^ b4, a5 ^ b5, a6 ^ b6, a7 ^ b7, c)
        == sum_bits(a, a1, a2, a3, a4, a5, a6, a7, c) ^ sum_bits(b, b1, b2, b3, b4, b5, b6, b7, c)) by (bit_vector);
}

/// Multiplication distributes over addition.
pub proof fn lemma_mul_distributes(a: u8, b: u8, c: u8)
    ensures
        gf_mul(a ^ b, c) == gf_mul(a, c) ^ gf_mul(b, c),
        gf_mul(c, a ^ b) == gf_mul(c, a) ^ gf_mul(c, b),
{
    lemma_mul_distributes_left(a, b, c);
    lemma_mul_distributes_right(c, a, b);
}

/// 1 is neutral and 0 absorbing.
pub proof fn lemma_mul_units(a: u8)
    ensures
        gf_mul(1, a) == a,
        gf_mul(a, 1) == a,
        gf_mul(0, a) == 0,
        gf_mul(a, 0) == 0,
{
    reveal(gf_mul);
    lemma_mul_one_bit(a);
    let a1 = xtime(a);
    let a2 = xtime(a1);
    let a3 = xtime(a2);
    let a4 = xtime(a3);
    let a5 = xtime(a4);
    let a6 = xtime(a5);
    let a7 = xtime(a6);
    assert(sum_bits(a, a1, a2, a3, a4, a5, a6, a7, 0) == 0) by (bit_vector);
    assert(xtime(0) == 0) by (bit_vector);
    assert(sum_bits(0, 0, 0, 0, 0, 0, 0, 0, a) == 0) by (bit_vector);
}

proof fn lemma_mul_xtime(a: u8, b: u8)
    ensures
        gf_mul(xtime(a), b) == xtime(gf_mul(a, b)),
{
    reveal(gf_mul);
    let a1 = xtime(a);
    let a2 = xtime(a1);
    let a3 = xtime(a2);
    let a4 = xtime(a3);
    let a5 = xtime(a4);
    let a6 = xtime(a5);
    let a7 = xtime(a6);
    let a8 = xtime(a7);
    let s0 = select_bit(a, b, 0);
    let s1 = select_bit(a1, b, 1);
    let s2 = select_bit(a2, b, 2);
    let s3 = select_bit(a3, b, 3);
    let s4 = select_bit(a4, b, 4);
    let s5 = select_bit(a5, b, 5);
    let s6 = select_bit(a6, b, 6);
    let s7 = select_bit(a7, b, 7);
    lemma_xtime_linear(s0, s1);
    lemma_xtime_linear(s0 ^ s1, s2);
    lemma_xtime_linear(s0 ^ s1 ^ s2, s3);
    lemma_xtime_linear(s0 ^ s1 ^ s2 ^ s3, s4);
    lemma_xtime_linear(s0 ^ s1 ^ s2 ^ s3 ^ s4, s5);
    lemma_xtime_linear(s0 ^ s1 ^ s2 ^ s3 ^ s4 ^ s5, s6);
    lemma_xtime_linear(s0 ^ s1 ^ s2 ^ s3 ^ s4 ^ s5 ^ s6, s7);
    assert(xtime(0) == 0) by (bit_vector);
}

/// Multiplication commutes.
pub proof fn lemma_mul_commutes(a: u8, b: u8)
    ensures
        gf_mul(a, b) == gf_mul(b, a),
{
    reveal(gf_mul);
    // b is the sum of the x^i at its set bits, and x^i * a is a shifted i times.
    let s0 = select_bit(1, b, 0);
    let s1 = select_bit(2, b, 1);
    let s2 = select_bit(4, b, 2);
    let s3 = select_bit(8, b, 3);
    let s4 = select_bit(16, b, 4);
    let s5 = select_bit(32, b, 5);
    let s6 = select_bit(64, b, 6);
    let s7 = select_bit(128, b, 7);
    assert(sum_bits(1, 2, 4, 8, 16, 32, 64, 128, b) == b) by (bit_vector);
    lemma_mul_distributes_left(s0 ^ s1 ^ s2 ^ s3 ^ s4 ^ s5 ^ s6, s7, a);
    lemma_mul_distributes_left(s0 ^ s1 ^ s2 ^ s3 ^ s4 ^ s5, s6, a);
    lemma_mul_distributes_left(s0 ^ s1 ^ s2 ^ s3 ^ s4, s5, a);
    lemma_mul_distributes_left(s0 ^ s1 ^ s2 ^ s3, s4, a);
    lemma_mul_distributes_left(s0 ^ s1 ^ s2, s3, a);
    lemma_mul_distributes_left(s0 ^ s1, s2, a);
    lemma_mul_distributes_left(s0, s1, a);
    lemma_powers_of_x();
    lemma_mul_units(a);
    lemma_mul_xtime(1, a);
    lemma_mul_xtime(2, a);
    lemma_mul_xtime(4, a);
    lemma_mul_xtime(8, a);
    lemma_mul_xtime(16, a);
    lemma_mul_xtime(32, a);
    lemma_mul_xtime(64, a);
}

/// Factors can be multiplied on in either order.
proof fn lemma_mul_exchange(a: u8, b: u8, c: u8)
    ensures
        gf_mul(gf_mul(a, b), c) == gf_mul(gf_mul(a, c), b),
{
    reveal(gf_mul);
    let b1 = xtime(a);
    let b2 = xtime(b1);
    let b3 = xtime(b2);
    let b4 = xtime(b3);
    let b5 = xtime(b4);
    let b6 = xtime(b5);
    let b7 = xtime(b6);
    // (a * b) * c is the sum of select_bit(a * x^i, b, i) * c.
    let s0 = select_bit(a, b, 0);
    let s1 = select_bit(b1, b, 1);
    let s2 = select_bit(b2, b, 2);
    let s3 = select_bit(b3, b, 3);
    let s4 = select_bit(b4, b, 4);
    let s5 = select_bit(b5, b, 5);
    let s6 = select_bit(b6, b, 6);
    let s7 = select_bit(b7, b, 7);
    lemma_mul_distributes(s0 ^ s1 ^ s2 ^ s3 ^ s4 ^ s5 ^ s6, s7, c);
    lemma_mul_distributes(s0 ^ s1 ^ s2 ^ s3 ^ s4 ^ s5, s6, c);
    lemma_mul_distributes(s0 ^ s1 ^ s2 ^ s3 ^ s4, s5, c);
    lemma_mul_distributes(s0 ^ s1 ^ s2 ^ s3, s4, c);
    lemma_mul_distributes(s0 ^ s1 ^ s2, s3, c);
    lemma_mul_distributes(s0 ^ s1, s2, c);
    lemma_mul_distributes(s0, s1, c);
    // Each summand is select_bit(x^i * (a * c), b, i).
    lemma_mul_units(c);
    lemma_mul_xtime(a, c);
    lemma_mul_xtime(b1, c);
    lemma_mul_xtime(b2, c);
    lemma_mul_xtime(b3, c);
    lemma_mul_xtime(b4, c);
    lemma_mul_xtime(b5, c);
    lemma_mul_xtime(b6, c);
}

/// Multiplication associates.
pub proof fn lemma_mul_associates(a: u8, b: u8, c: u8)
    ensures
        gf_mul(gf_mul(a, b), c) == gf_mul(a, gf_mul(b, c)),
{
    lemma_mul_exchange(b, c, a);
    lemma_mul_commutes(a, gf_mul(b, c));
    lemma_mul_commutes(a, b);
}

proof fn lemma_pow_add(base: u8, m: nat, n: nat)
    ensures
        gf_pow(base, m + n) == gf_mul(gf_pow(base, m), gf_pow(base, n)),
    decreases n,
{
    if n == 0 {
        lemma_mul_units(gf_pow(base, m));
    } else {
        lemma_pow_add(base, m, (n - 1) as nat);
        lemma_mul_associates(gf_pow(base, m), gf_pow(base, (n - 1) as nat), base);
    }
}

/// `(base^2)^n == base^(2n)`.
proof fn lemma_pow_square(base: u8, n: nat)
    ensures
        gf_pow(gf_mul(base, base), n) == gf_pow(base, 2 * n),
    decreases n,
{
    if n > 0 {
        lemma_pow_square(base, (n - 1) as nat);
        lemma_pow_add(base, (2 * (n - 1)) as nat, 2);
        lemma_mul_units(base);
        assert(gf_pow(base, 2) == gf_mul(base, base)) by {
            reveal_with_fuel(gf_pow, 3);
        }
    }
}

/// The square of a sum is the sum of the squares, so squaring is linear.
spec fn square(a: u8) -> u8 {
    sum_bits(1, 4, 16, 64, 29, 116, 205, 19, a)
}

/// `a^16`, four squarings in one.
spec fn sixteenth(a: u8) -> u8 {
    sum_bits(1, 76, 157, 70, 95, 253, 217, 129, a)
}

proof fn lemma_square(a: u8)
    ensures
        gf_mul(a, a) == square(a),
{
    reveal(gf_mul);
    let a1 = xtime(a);
    let a2 = xtime(a1);
    let a3 = xtime(a2);
    let a4 = xtime(a3);
    let a5 = xtime(a4);
    let a6 = xtime(a5);
    let a7 = xtime(a6);
    assert(sum_bits(a, a1, a2, a3, a4, a5, a6, a7, a) == square(a)) by (bit_vector)
        requires
            a1 == xtime(a),
            a2 == xtime(a1),
            a3 == xtime(a2),
            a4 == xtime(a3),
            a5 == xtime(a4),
            a6 == xtime(a5),
            a7 == xtime(a6),
    ;
}

proof fn lemma_sixteenth(a: u8)
    ensures
        gf_pow(a, 16) == sixteenth(a),
{
    let a2 = square(a);
    let a4 = square(a2);
    let a8 = square(a4);
    lemma_square(a);
    lemma_square(a2);
    lemma_square(a4);
    lemma_square(a8);
    lemma_mul_units(a);
    assert(gf_pow(a, 2) == a2) by {
        reveal_with_fuel(gf_pow, 3);
    }
    lemma_pow_add(a, 2, 2);
    lemma_pow_add(a, 4, 4);
    lemma_pow_add(a, 8, 8);
    assert(square(a8) == sixteenth(a)) by (bit_vector)
        requires
            a2 == square(a),
            a4 == square(a2),
            a8 == square(a4),
    ;
}

/// `a^17` lies in the subfield of 16 elements, and is not 0 where `a` is not.
proof fn lemma_norm(a: u8)
    requires
        a != 0,
    ensures
        sixteenth(gf_mul(sixteenth(a), a)) == gf_mul(sixteenth(a), a),
        gf_mul(sixteenth(a), a) != 0,
{
    reveal(gf_mul);
    let c = sixteenth(a);
    let c1 = xtime(c);
    let c2 = xtime(c1);
    let c3 = xtime(c2);
    let c4 = xtime(c3);
    let c5 = xtime(c4);
    let c6 = xtime(c5);
    let c7 = xtime(c6);
    let n = gf_mul(c, a);
    assert(sixteenth(n) == n && n != 0) by (bit_vector)
        requires
            a != 0,
            c == sixteenth(a),
            c1 == xtime(c),
            c2 == xtime(c1),
            c3 == xtime(c2),
            c4 == xtime(c3),
            c5 == xtime(c4),
            c6 == xtime(c5),
            c7 == xtime(c6),
            n == sum_bits(c, c1, c2, c3, c4, c5, c6, c7, a),
    ;
}

/// The fifteenth power of a non-zero element of the subfield is 1.
proof fn lemma_subfield_order(n: u8)
    requires
        n != 0,
        sixteenth(n) == n,
    ensures
        gf_pow(n, 15) == 1,
{
    reveal(gf_mul);
    let n2 = square(n);
    let n4 = square(n2);
    let n8 = square(n4);
    lemma_square(n);
    lemma_square(n2);
    lemma_square(n4);
    lemma_mul_units(n);
    assert(gf_pow(n, 2) == n2) by {
        reveal_with_fuel(gf_pow, 3);
    }
    assert(gf_pow(n, 1) == n) by {
        reveal_with_fuel(gf_pow, 2);
    }
    lemma_pow_add(n, 2, 2);
    lemma_pow_add(n, 4, 4);
    lemma_pow_add(n, 8, 4);
    lemma_pow_add(n, 2, 1);
    lemma_pow_add(n, 12, 3);
    let c = n8;
    let c1 = xtime(c);
    let c2 = xtime(c1);
    let c3 = xtime(c2);
    let c4 = xtime(c3);
    let c5 = xtime(c4);
    let c6 = xtime(c5);
    let c7 = xtime(c6);
    let p = gf_mul(c, n4);
    let d = n2;
    let d1 = xtime(d);
    let d2 = xtime(d1);
    let d3 = xtime(d2);
    let d4 = xtime(d3);
    let d5 = xtime(d4);
    let d6 = xtime(d5);
    let d7 = xtime(d6);
    let q = gf_mul(d, n);
    let e = p;
    let e1 = xtime(e);
    let e2 = xtime(e1);
    let e3 = xtime(e2);
    let e4 = xtime(e3);
    let e5 = xtime(e4);
    let e6 = xtime(e5);
    let e7 = xtime(e6);
    assert(sum_bits(e, e1, e2, e3, e4, e5, e6, e7, q) == 1) by (bit_vector)
        requires
            n != 0,
            sixteenth(n) == n,
            n2 == square(n),
            n4 == square(n2),
            c == square(n4),
            c1 == xtime(c),
            c2 == xtime(c1),
            c3 == xtime(c2),
            c4 == xtime(c3),
            c5 == xtime(c4),
            c6 == xtime(c5),
            c7 == xtime(c6),
            p == sum_bits(c, c1, c2, c3, c4, c5, c6, c7, n4),
            d == n2,
            d1 == xtime(d),
            d2 == xtime(d1),
            d3 == xtime(d2),
            d4 == xtime(d3),
            d5 == xtime(d4),
            d6 == xtime(d5),
            d7 == xtime(d6),
            q == sum_bits(d, d1, d2, d3, d4, d5, d6, d7, n),
            e == p,
            e1 == xtime(e),
            e2 == xtime(e1),
            e3 == xtime(e2),
            e4 == xtime(e3),
            e5 == xtime(e4),
            e6 == xtime(e5),
            e7 == xtime(e6),
    ;
}

proof fn lemma_pow_pow(base: u8, m: nat, n: nat)
    ensures
        gf_pow(gf_pow(base, m), n) == gf_pow(base, m * n),
    decreases n,
{
    if n == 0 {
        assert(m * n == 0) by (nonlinear_arith)
            requires
                n == 0,
        ;
    } else {
        lemma_pow_pow(base, m, (n - 1) as nat);
        lemma_pow_add(base, m * ((n - 1) as nat), m);
        assert(m * ((n - 1) as nat) + m == m * n) by (nonlinear_arith)
            requires
                n > 0,
        ;
    }
}

/// `a^254` is the inverse of every non-zero `a`.
pub proof fn lemma_inverse(a: u8)
    requires
        a != 0,
    ensures
        gf_mul(a, gf_pow(a, 254)) == 1,
        gf_mul(gf_pow(a, 254), a) == 1,
        gf_pow(a, 254) != 0,
{
    lemma_sixteenth(a);
    lemma_norm(a);
    assert(gf_pow(a, 17) == gf_mul(gf_pow(a, 16), a));
    lemma_subfield_order(gf_pow(a, 17));
    lemma_pow_pow(a, 17, 15);
    assert(gf_pow(a, 255) == gf_mul(gf_pow(a, 254), a));
    lemma_mul_commutes(a, gf_pow(a, 254));
    lemma_mul_units(a);
}

/// The product by `b` is the product by the lowest bit of `b` plus `x` times
/// the product by the others.
proof fn lemma_mul_step(a: u8, b: u8)
    ensures
        gf_mul(a, b) == select_bit(a, b, 0) ^ gf_mul(xtime(a), b >> 1u8),
{
    reveal(gf_mul);
    let a1 = xtime(a);
    let a2 = xtime(a1);
    let a3 = xtime(a2);
    let a4 = xtime(a3);
    let a5 = xtime(a4);
    let a6 = xtime(a5);
    let a7 = xtime(a6);
    let a8 = xtime(a7);
    assert(sum_bits(a, a1, a2, a3, a4, a5, a6, a7, b) == select_bit(a, b, 0) ^ sum_bits(a1, a2, a3, a4, a5, a6,
        a7, a8, b >> 1u8)) by (bit_vector);
}

/// Multiply two GF(2^8) elements.
pub fn mul(a: u8, b: u8) -> (r: u8)
    ensures
        r == gf_mul(a, b),
{
    let mut x: u8 = a;
    let mut y: u8 = b;
    let mut result: u8 = 0;
    let mut i: u8 = 0;
    proof {
        let g = gf_mul(a, b);
        assert(0u8 ^ g == g && 0xFFu8 >> 0u8 == 0xFFu8) by (bit_vector);
    }
    while i < 8
        invariant
            0 <= i <= 8,
            result ^ gf_mul(x, y) == gf_mul(a, b),
            i < 8 ==> y <= (0xFFu8 >> i),
            i == 8 ==> y == 0,
        decreases 8 - i,
    {
        let ghost (x0, y0, r0) = (x, y, result);
        if y & 1 != 0 {
            result = result ^ x;
        }
        let carry: u8 = x & 0x80;
        x = x << 1;
        if carry != 0 {
            x = x ^ 0x1D;
        }
        y = y >> 1;
        i = i + 1;
        proof {
            assert(x == xtime(x0));
            let first = select_bit(x0, y0, 0);
            assert(y0 >> 0u8 == y0) by (bit_vector);
            assert(x ^ 0u8 == x) by (bit_vector);
            assert(r0 ^ 0u8 == r0) by (bit_vector);
            assert(result == r0 ^ first);
            lemma_mul_step(x0, y0);
            let rest = gf_mul(x, y);
            assert((r0 ^ first) ^ rest == r0 ^ (first ^ rest)) by (bit_vector);
            let k: u8 = (i - 1) as u8;
            assert(k < 7 && y0 <= (0xFFu8 >> k) ==> (y0 >> 1u8) <= (0xFFu8 >> ((k + 1) as u8))) by (bit_vector);
            assert(y0 <= (0xFFu8 >> 7u8) ==> (y0 >> 1u8) == 0) by (bit_vector);
        }
    }
    proof {
        lemma_mul_units(x);
        assert(result ^ 0u8 == result) by (bit_vector);
    }
    result
}

/// Compute `base^exp` in GF(2^8) using exponentiation by squaring.
pub fn pow(base: u8, exp: u32) -> (r: u8)
    ensures
        r == gf_pow(base, exp as nat),
{
    let mut b: u8 = base;
    let mut e: u32 = exp;
    let mut result: u8 = 1;
    proof {
        lemma_mul_units(gf_pow(base, exp as nat));
    }
    while e > 0
        invariant
            gf_mul(result, gf_pow(b, e as nat)) == gf_pow(base, exp as nat),
        decreases e,
    {
        let ghost (b0, r0) = (b, result);
        let ghost half = (e / 2) as nat;
        proof {
            lemma_pow_square(b0, half);
            assert(e & 1 == e % 2) by (bit_vector);
            assert(e >> 1 == e / 2) by (bit_vector);
            lemma_pow_add(b0, 1, 2 * half);
            lemma_mul_units(b0);
            assert(gf_pow(b0, 1) == b0) by {
                reveal_with_fuel(gf_pow, 2);
            }
            lemma_mul_associates(r0, b0, gf_pow(b0, 2 * half));
        }
        if e & 1 != 0 {
            result = self::mul(result, b);
        }
        b = self::mul(b, b);
        e = e >> 1;
    }
    proof {
        lemma_mul_units(result);
    }
    result
}

/// Multiplicative inverse in GF(2^8); 0 for 0.
///
/// Since GF(2^8)* has order 255, a^(-1) = a^254.
pub fn inv(a: u8) -> (r: u8)
    ensures
        a == 0 ==> r == 0,
        a != 0 ==> r == gf_pow(a, 254) && gf_mul(a, r) == 1,
{
    if a == 0 {
        return 0;
    }
    proof {
        lemma_inverse(a);
    }
    pow(a, 254)
}

/// Every element but 0 has exactly one inverse.
pub proof fn law_inverse_is_unique(a: u8, b: u8)
    requires
        gf_mul(a, b) == 1,
    ensures
        a != 0,
        b == gf_pow(a, 254),
{
    lemma_mul_units(b);
    lemma_inverse(a);
    let c = gf_pow(a, 254);
    lemma_mul_associates(c, a, b);
    lemma_mul_units(c);
}

/// A product is 0 only where a factor is.
pub proof fn law_no_zero_divisors(a: u8, b: u8)
    requires
        gf_mul(a, b) == 0,
    ensures
        a == 0 || b == 0,
{
    if a != 0 {
        lemma_inverse(a);
        let c = gf_pow(a, 254);
        lemma_mul_associates(c, a, b);
        lemma_mul_units(b);
        lemma_mul_units(c);
    }
}

} // verus!
