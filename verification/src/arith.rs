//! Modular arithmetic for ring tickets.
//!
//! Producer and consumer tickets grow without bound in the abstract model but
//! are stored in `usize` fields, so they wrap modulo the number of `usize`
//! values. The lemmas here relate wrapping `usize` arithmetic on the stored
//! residues to exact arithmetic on the abstract tickets.

use vstd::prelude::*;

verus! {

use vstd::arithmetic::div_mod::{
    lemma_add_mod_noop_right, lemma_fundamental_div_mod, lemma_fundamental_div_mod_converse_mod,
    lemma_mod_bound, lemma_mod_multiples_basic, lemma_mod_twice, lemma_small_mod,
    lemma_sub_mod_noop,
};
use vstd::arithmetic::mul::{lemma_mul_is_distributive_add, lemma_mul_is_distributive_sub};
use vstd::arithmetic::power2::{
    lemma_pow2_adds, lemma_pow2_pos, lemma_pow2_strictly_increases, lemma2_to64, pow2,
};
use vstd::layout::unsigned_int_max_values;

/// The number of distinct `usize` values; tickets are stored modulo this.
pub open spec fn word_size() -> int {
    usize::MAX as int + 1
}

/// The residue of an exact (unbounded) ticket as it is stored in a `usize`.
pub open spec fn wrap(a: int) -> int {
    a % word_size()
}

/// The word size is the power of two matching the width of `usize`.
pub proof fn lemma_word_size_is_pow2()
    ensures
        word_size() == pow2(usize::BITS as nat),
{
    unsigned_int_max_values();
}

/// Two congruent values within one modulus-width window are equal.
pub proof fn lemma_mod_congruent_bounded(a: int, b: int, m: int)
    requires
        m > 0,
        b <= a < b + m,
        a % m == b % m,
    ensures
        a == b,
{
    lemma_fundamental_div_mod(a, m);
    lemma_fundamental_div_mod(b, m);
    let qa = a / m;
    let qb = b / m;
    lemma_mul_is_distributive_sub(m, qa, qb);
    assert(a - b == m * (qa - qb));
    assert(qa - qb == 0) by (nonlinear_arith)
        requires
            m > 0,
            0 <= m * (qa - qb) < m,
    ;
}

/// Adding a small step to a stored residue wraps to the residue of the
/// stepped ticket: this is what `usize::wrapping_add` computes.
pub proof fn lemma_wrap_add(a: int, k: int)
    requires
        a >= 0,
        0 <= k < word_size(),
    ensures
        wrap(a) + k <= usize::MAX ==> wrap(a + k) == wrap(a) + k,
        wrap(a) + k > usize::MAX ==> wrap(a + k) == wrap(a) + k - word_size(),
{
    let m = word_size();
    lemma_fundamental_div_mod(a, m);
    let q = a / m;
    if wrap(a) + k <= usize::MAX {
        lemma_fundamental_div_mod_converse_mod(a + k, m, q, wrap(a) + k);
    } else {
        lemma_mul_is_distributive_add(m, q, 1);
        lemma_fundamental_div_mod_converse_mod(a + k, m, q + 1, wrap(a) + k - m);
    }
}

/// The wrapping difference of two stored residues recovers the exact distance
/// between the tickets, provided that distance fits in a word: this is what
/// `usize::wrapping_sub` computes.
pub proof fn lemma_wrap_sub(a: int, b: int)
    requires
        0 <= b <= a,
        a - b <= usize::MAX,
    ensures
        wrap(a) - wrap(b) >= 0 ==> wrap(a) - wrap(b) == a - b,
        wrap(a) - wrap(b) < 0 ==> wrap(a) - wrap(b) + word_size() == a - b,
{
    let m = word_size();
    lemma_fundamental_div_mod(a, m);
    lemma_fundamental_div_mod(b, m);
    let qa = a / m;
    let qb = b / m;
    lemma_mul_is_distributive_sub(m, qa, qb);
    if wrap(a) - wrap(b) >= 0 {
        lemma_fundamental_div_mod_converse_mod(a - b, m, qa - qb, wrap(a) - wrap(b));
        lemma_small_mod((a - b) as nat, m as nat);
    } else {
        lemma_mul_is_distributive_sub(m, qa - qb, 1);
        lemma_fundamental_div_mod_converse_mod(a - b, m, qa - qb - 1, wrap(a) - wrap(b) + m);
        lemma_small_mod((a - b) as nat, m as nat);
    }
}

/// Reduction by a divisor of the modulus commutes with the modulus: the slot
/// position of a ticket can be read off its stored residue.
pub proof fn lemma_mod_mod_divides(a: int, c: int, m: int)
    requires
        a >= 0,
        0 < c,
        0 < m,
        m % c == 0,
    ensures
        (a % m) % c == a % c,
{
    lemma_fundamental_div_mod(m, c);
    let s = m / c;
    assert(m == c * s);
    lemma_fundamental_div_mod(a, m);
    let q = a / m;
    let am = a % m;
    lemma_fundamental_div_mod(am, c);
    let t = am / c;
    let r = am % c;
    assert(a == (c * s) * q + c * t + r);
    assert((c * s) * q == c * (s * q)) by (nonlinear_arith);
    lemma_mul_is_distributive_add(c, s * q, t);
    lemma_fundamental_div_mod_converse_mod(a, c, s * q + t, r);
}

/// A value already stored in a `usize` is its own residue.
pub proof fn lemma_wrap_usize(x: usize)
    ensures
        wrap(x as int) == x as int,
{
    lemma_small_mod(x as nat, word_size() as nat);
}

/// Wrapping before adding a non-negative step gives the same residue as
/// adding first.
pub proof fn lemma_wrap_wrap_add(a: int, k: int)
    requires
        a >= 0,
        k >= 0,
    ensures
        wrap(wrap(a) + k) == wrap(a + k),
{
    lemma_add_mod_noop_right(k, a, word_size());
}

/// Reducing the left summand first does not change a difference taken modulo `m`.
pub proof fn lemma_mod_sub_noop_left(x: int, y: int, m: int)
    requires
        m > 0,
    ensures
        ((x % m) - y) % m == (x - y) % m,
{
    lemma_mod_twice(x, m);
    lemma_sub_mod_noop(x % m, y, m);
    lemma_sub_mod_noop(x, y, m);
}

/// Each ring position `p` names one ticket in the window of `c` tickets
/// starting at `base`, and that ticket reduces back to `p`.
pub proof fn lemma_ticket_pos(base: int, p: int, c: int)
    requires
        c > 0,
        0 <= p < c,
    ensures
        base <= base + ((p - base) % c) < base + c,
        (base + ((p - base) % c)) % c == p,
{
    lemma_mod_bound(p - base, c);
    lemma_add_mod_noop_right(base, p - base, c);
    lemma_small_mod(p as nat, c as nat);
}

/// A ticket `tk` inside the window of `c` tickets starting at `base` is
/// recovered from its ring position `tk % c`.
pub proof fn lemma_ticket_at_inverse(base: int, tk: int, c: int)
    requires
        c > 0,
        base <= tk < base + c,
    ensures
        base + (((tk % c) - base) % c) == tk,
{
    lemma_mod_sub_noop_left(tk, base, c);
    lemma_small_mod((tk - base) as nat, c as nat);
}

/// A smaller power of two divides a larger one.
pub proof fn lemma_pow2_divides(k1: nat, k2: nat)
    requires
        k1 <= k2,
    ensures
        pow2(k2) as int % pow2(k1) as int == 0,
{
    lemma_pow2_adds((k2 - k1) as nat, k1);
    lemma_pow2_pos(k1);
    lemma_mod_multiples_basic(pow2((k2 - k1) as nat) as int, pow2(k1) as int);
}

/// A power of two below the word size has an exponent below the word width.
pub proof fn lemma_pow2_below_word_size(k: nat)
    requires
        pow2(k) < word_size(),
    ensures
        k < usize::BITS,
{
    lemma_word_size_is_pow2();
    if k >= usize::BITS {
        if k > usize::BITS {
            lemma_pow2_strictly_increases(usize::BITS as nat, k);
        }
    }
}

/// The smallest power of two that is at least `n`, together with its
/// exponent. This is the rounding rule for the queue capacity.
pub(crate) fn next_pow2_at_least(n: usize) -> (res: (usize, Ghost<nat>))
    requires
        1 <= n <= usize::MAX / 2 + 1,
    ensures
        res.0 == pow2(res.1@),
        n <= res.0,
        res.0 < 2 * n,
        res.1@ < usize::BITS,
{
    let mut c: usize = 1;
    let ghost mut k: nat = 0;
    proof {
        lemma2_to64();
    }
    while c < n
        invariant
            1 <= c,
            c == pow2(k),
            c < 2 * n,
            n <= usize::MAX / 2 + 1,
        decreases 2 * n - c,
    {
        proof {
            lemma_pow2_adds(k, 1);
            lemma2_to64();
        }
        c = c * 2;
        proof {
            k = k + 1;
        }
    }
    proof {
        lemma_word_size_is_pow2();
        lemma_pow2_below_word_size(k);
    }
    (c, Ghost(k))
}

} // verus!
