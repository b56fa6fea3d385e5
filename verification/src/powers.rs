//! Powers of two and the modular facts the ring buffer's index arithmetic rests on.

use crate::descriptor::{id_space, lemma_id_space, word_space};
use vstd::arithmetic::div_mod::{lemma_fundamental_div_mod, lemma_mod_multiples_basic};
use vstd::arithmetic::mul::{lemma_mul_inequality, lemma_mul_is_commutative};
use vstd::arithmetic::power2::{lemma2_to64, lemma2_to64_rest, lemma_pow2_adds, lemma_pow2_strictly_increases, pow2};
use vstd::prelude::*;

verus! {

/// `n` is a power of two.
pub open spec fn is_power_of_two(n: int) -> bool {
    exists|e: nat| pow2(e) == n
}

/// Number of distinct `u64` values.
pub open spec fn sequence_space() -> int {
    0x1_0000_0000_0000_0000
}

/// A power of two divides every power of two that is not smaller.
pub proof fn lemma_power_of_two_divides(a: int, b: int)
    requires
        is_power_of_two(a),
        is_power_of_two(b),
        a <= b,
    ensures
        a > 0,
        b % a == 0,
        b / a >= 1,
{
    let ea = choose|e: nat| pow2(e) == a;
    let eb = choose|e: nat| pow2(e) == b;
    if eb < ea {
        lemma_pow2_strictly_increases(eb, ea);
    }
    let d = (eb - ea) as nat;
    lemma_pow2_adds(ea, d);
    assert(ea + d == eb);
    vstd::arithmetic::power2::lemma_pow2_pos(ea);
    vstd::arithmetic::power2::lemma_pow2_pos(d);
    lemma_mul_is_commutative(pow2(d) as int, pow2(ea) as int);
    lemma_mod_multiples_basic(pow2(d) as int, a);
    vstd::arithmetic::div_mod::lemma_div_multiples_vanish(pow2(d) as int, a);
}

/// Two different powers of two differ by at least a factor of two.
pub proof fn lemma_power_of_two_gap(a: int, b: int)
    requires
        is_power_of_two(a),
        is_power_of_two(b),
        a < b,
    ensures
        2 * a <= b,
{
    let ea = choose|e: nat| pow2(e) == a;
    let eb = choose|e: nat| pow2(e) == b;
    if eb <= ea {
        if eb < ea {
            lemma_pow2_strictly_increases(eb, ea);
        }
    }
    let d = (eb - ea) as nat;
    lemma_pow2_adds(ea, d);
    vstd::arithmetic::power2::lemma_pow2_pos(ea);
    if d == 0 {
        assert(ea + d == eb);
    } else {
        vstd::arithmetic::power2::lemma_pow2_strictly_increases(0, d);
        lemma2_to64();
        lemma_mul_inequality(2, pow2(d) as int, a);
        lemma_mul_is_commutative(pow2(d) as int, a);
    }
}

/// The id space, the word space and the sequence space are powers of two, each a multiple of
/// the one before.
pub proof fn lemma_spaces()
    ensures
        is_power_of_two(id_space()),
        is_power_of_two(word_space()),
        is_power_of_two(sequence_space()),
        word_space() % id_space() == 0,
        sequence_space() % id_space() == 0,
        sequence_space() % word_space() == 0,
        word_space() <= sequence_space(),
{
    lemma_id_space();
    lemma2_to64();
    lemma2_to64_rest();
    assert(pow2(64) == sequence_space());
    if usize::BITS == 64 {
        assert(pow2(62) == id_space());
        assert(pow2(64) == word_space());
    } else {
        assert(pow2(30) == id_space());
        assert(pow2(32) == word_space());
    }
    lemma_power_of_two_divides(id_space(), word_space());
    lemma_power_of_two_divides(id_space(), sequence_space());
    lemma_power_of_two_divides(word_space(), sequence_space());
}

/// The bytes of a machine word form a power of two.
pub proof fn lemma_word_bytes()
    ensures
        is_power_of_two((usize::BITS / 8) as int),
        (usize::BITS / 8) as int == 4 || (usize::BITS / 8) as int == 8,
{
    lemma2_to64();
    lemma_id_space();
    if usize::BITS == 64 {
        assert(pow2(3) == 8);
    } else {
        assert(pow2(2) == 4);
    }
}

/// A multiple of `c` below a multiple `w` of `c` is at most `w - c`.
pub proof fn lemma_multiple_below(x: int, c: int, w: int)
    requires
        c > 0,
        0 <= x < w,
        x % c == 0,
        w % c == 0,
    ensures
        x <= w - c,
{
    lemma_fundamental_div_mod(x, c);
    lemma_fundamental_div_mod(w, c);
    let a = x / c;
    let b = w / c;
    if a >= b {
        lemma_mul_inequality(b, a, c);
        lemma_mul_is_commutative(a, c);
        lemma_mul_is_commutative(b, c);
    }
    lemma_mul_inequality(a + 1, b, c);
    lemma_mul_is_commutative(a + 1, c);
    lemma_mul_is_commutative(b, c);
    vstd::arithmetic::mul::lemma_mul_is_distributive_add(c, a, 1);
}

/// Reduction modulo a divisor of the modulus commutes with reduction modulo the modulus.
pub proof fn lemma_mod_of_mod(x: int, a: int, b: int)
    requires
        a > 0,
        b > 0,
        b % a == 0,
    ensures
        (x % b) % a == x % a,
{
    lemma_fundamental_div_mod(b, a);
    let q = b / a;
    lemma_mul_is_commutative(a, q);
    assert(b == q * a);
    vstd::arithmetic::div_mod::lemma_mod_mod(x, a, q);
}

} // verus!
