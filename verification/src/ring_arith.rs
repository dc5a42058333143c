//! Modular arithmetic for ring positions: free-running `usize` indices that
//! wrap around the word size, reduced to slots of a power-of-two ring.
use vstd::prelude::*;
use vstd::arithmetic::div_mod::{
    lemma_add_mod_noop_right, lemma_fundamental_div_mod, lemma_mod_equivalence, lemma_mod_mod,
    lemma_mod_multiples_basic, lemma_small_mod, lemma_sub_mod_noop, lemma_sub_mod_noop_right,
};
use vstd::arithmetic::mul::lemma_mul_is_distributive_sub;
use vstd::arithmetic::power::pow;
use vstd::arithmetic::power2::{
    is_pow2, is_pow2_equiv, lemma_pow2, lemma_pow2_adds, lemma_pow2_pos,
    lemma_pow2_strictly_increases, pow2,
};
use vstd::bits::{low_bits_mask, lemma_usize_low_bits_mask_is_mod};

verus! {

/// The number of distinct `usize` values; free-running indices wrap
/// around it.
pub open spec fn word_range() -> int {
    usize::MAX as int + 1
}

/// A free-running index after wrapping around the word size.
pub open spec fn wrap(x: int) -> int {
    x % word_range()
}

/// A power of two that fits in a `usize` is `2^k` for some `k` below the
/// word's bit width, and it divides the word range.
pub proof fn lemma_pow2_divides_word(cap: usize) -> (k: nat)
    requires
        is_pow2(cap as int),
    ensures
        cap == pow2(k),
        k < usize::BITS,
        cap > 0,
        word_range() % (cap as int) == 0,
        (word_range() / (cap as int)) * (cap as int) == word_range(),
        word_range() / (cap as int) > 0,
{
    is_pow2_equiv(cap as int);
    let k = choose|i: nat| pow(2, i) == cap as int;
    lemma_pow2(k);
    vstd::layout::unsigned_int_max_values();
    let bits = usize::BITS as nat;
    assert(word_range() == pow2(bits));
    if k >= bits {
        if k > bits {
            lemma_pow2_strictly_increases(bits, k);
        }
        assert(false);
    }
    lemma_pow2_adds(k, (bits - k) as nat);
    lemma_pow2_pos((bits - k) as nat);
    lemma_pow2_pos(k);
    let q = pow2((bits - k) as nat);
    assert(k + (bits - k) as nat == bits);
    assert(pow2(bits) == pow2(k) * q);
    assert(cap == pow2(k));
    assert(word_range() == q * (cap as int)) by (nonlinear_arith)
        requires
            word_range() == pow2(k) * q,
            cap == pow2(k),
    ;
    lemma_mod_multiples_basic(q as int, cap as int);
    lemma_fundamental_div_mod(word_range(), cap as int);
    assert(word_range() / (cap as int) == q) by (nonlinear_arith)
        requires
            word_range() == q * (cap as int),
            word_range() == (cap as int) * (word_range() / (cap as int)) + word_range() % (cap as int),
            word_range() % (cap as int) == 0,
            cap > 0,
    ;
    k
}

/// Masking with `cap - 1` takes the slot of an index in a ring of a
/// power-of-two `cap`.
pub proof fn lemma_mask_is_slot(x: usize, cap: usize)
    requires
        is_pow2(cap as int),
    ensures
        cap > 0,
        x & ((cap - 1) as usize) == x % cap,
{
    let k = lemma_pow2_divides_word(cap);
    lemma_usize_low_bits_mask_is_mod(x, k);
    assert(low_bits_mask(k) == cap - 1);
}

/// Wrapping around the word size does not change the slot in a ring whose
/// size divides the word range.
pub proof fn lemma_wrap_keeps_slot(x: int, cap: int)
    requires
        cap > 0,
        word_range() % cap == 0,
        (word_range() / cap) * cap == word_range(),
        word_range() / cap > 0,
    ensures
        wrap(x) % cap == x % cap,
{
    let q = word_range() / cap;
    assert(cap * q == word_range()) by (nonlinear_arith)
        requires
            q * cap == word_range(),
    ;
    lemma_mod_mod(x, cap, q);
}

/// Where `p` lies `off` slots past `base` (`0 <= off < cap`), the slot of
/// `p` lies `off` slots past `base`.
pub proof fn lemma_slot_offset(p: int, base: int, off: int, cap: int)
    requires
        cap > 0,
        0 <= off < cap,
        (p - base - off) % cap == 0,
    ensures
        (p % cap - base) % cap == off,
{
    let k = p % cap;
    lemma_fundamental_div_mod(p, cap);
    lemma_fundamental_div_mod(p - base - off, cap);
    let q1 = p / cap;
    let q2 = (p - base - off) / cap;
    assert(k - base - off == cap * q2 - cap * q1);
    lemma_mul_is_distributive_sub(cap, q2, q1);
    assert(k - base - off == (q2 - q1) * cap) by (nonlinear_arith)
        requires
            k - base - off == cap * (q2 - q1),
    ;
    lemma_mod_multiples_basic(q2 - q1, cap);
    lemma_mod_equivalence(k - base, off, cap);
    lemma_small_mod(off as nat, cap as nat);
}

/// Two positions whose difference is a multiple of `m` have the same
/// remainder modulo `m`.
pub proof fn lemma_congruent(a: int, b: int, m: int)
    requires
        m > 0,
        (a - b) % m == 0,
    ensures
        a % m == b % m,
{
    lemma_mod_equivalence(a, b, m);
}

/// The wrapped distance from `head` to `tail` differs from `tail - head` by
/// a multiple of `cap`, for a `cap` that divides the word range.
pub proof fn lemma_distance_congruent(head: int, tail: int, cap: int)
    requires
        cap > 0,
        word_range() % cap == 0,
        (word_range() / cap) * cap == word_range(),
        word_range() / cap > 0,
    ensures
        (tail - head - wrap(tail - head)) % cap == 0,
{
    lemma_wrap_keeps_slot(tail - head, cap);
    lemma_mod_equivalence(tail - head, wrap(tail - head), cap);
}


/// An index that already lies in the word range is its own wrap.
pub proof fn lemma_wrap_small(x: int)
    requires
        0 <= x < word_range(),
    ensures
        wrap(x) == x,
{
    lemma_small_mod(x as nat, word_range() as nat);
}

/// `usize::wrapping_add` is addition followed by a wrap.
pub proof fn lemma_wrapping_add(x: usize, y: usize)
    ensures
        vstd::wrapping::usize_specs::wrapping_add(x, y) == wrap(x + y),
{
    if x + y >= word_range() {
        lemma_wrap_small(x + y - word_range());
        lemma_fundamental_div_mod(x + y, word_range());
        lemma_fundamental_div_mod(x + y - word_range(), word_range());
        lemma_add_mod_noop_right(x + y - word_range(), word_range(), word_range());
        assert(wrap(word_range()) == 0) by {
            lemma_mod_multiples_basic(1, word_range());
        }
        assert(wrap(x + y) == wrap(x + y - word_range()));
    } else {
        lemma_wrap_small(x + y);
    }
}

/// `usize::wrapping_sub` is subtraction followed by a wrap.
pub proof fn lemma_wrapping_sub(x: usize, y: usize)
    ensures
        vstd::wrapping::usize_specs::wrapping_sub(x, y) == wrap(x - y),
{
    if x - y < 0 {
        lemma_wrap_small(x - y + word_range());
        assert(wrap(word_range()) == 0) by {
            lemma_mod_multiples_basic(1, word_range());
        }
        lemma_add_mod_noop_right(x - y, word_range(), word_range());
    } else {
        lemma_wrap_small(x - y);
    }
}

/// Adding after a wrap is adding before it.
pub proof fn lemma_wrap_add(x: int, y: int)
    ensures
        wrap(wrap(x) + y) == wrap(x + y),
{
    lemma_add_mod_noop_right(y, x, word_range());
}

/// The distance to a tail that moved forward by `f`.
pub proof fn lemma_wrap_push(t: int, h: int, f: int)
    requires
        0 <= f,
        wrap(t - h) + f < word_range(),
    ensures
        wrap(wrap(t + f) - h) == wrap(t - h) + f,
{
    lemma_sub_mod_noop(t + f, h, word_range());
    lemma_small_mod((h % word_range()) as nat, word_range() as nat);
    assert(wrap(wrap(t + f) - wrap(h)) == wrap(t + f - h));
    lemma_sub_mod_noop_right(wrap(t + f), h, word_range());
    assert(wrap(wrap(t + f) - h) == wrap(t + f - h));
    lemma_wrap_add(t - h, f);
    assert(wrap(t + f - h) == wrap(wrap(t - h) + f));
    lemma_wrap_small(wrap(t - h) + f);
}

/// The distance from a head that moved forward by `d` to the same tail.
pub proof fn lemma_wrap_pop(t: int, h: int, d: int)
    requires
        0 <= d <= wrap(t - h),
    ensures
        wrap(t - wrap(h + d)) == wrap(t - h) - d,
{
    lemma_sub_mod_noop_right(t, h + d, word_range());
    assert(wrap(t - wrap(h + d)) == wrap(t - h - d));
    lemma_sub_mod_noop(t - h, d, word_range());
    lemma_small_mod(d as nat, word_range() as nat);
    assert(wrap(t - h - d) == wrap(wrap(t - h) - d));
    lemma_wrap_small(wrap(t - h) - d);
}


/// Adding a multiple of `c` to, or subtracting from one, a multiple of `c`
/// gives a multiple of `c`.
pub proof fn lemma_multiple_shift(x: int, k: int, c: int)
    requires
        c > 0,
        x % c == 0,
    ensures
        (k * c - x) % c == 0,
        (x + k * c) % c == 0,
{
    lemma_fundamental_div_mod(x, c);
    let q = x / c;
    assert(k * c - x == (k - q) * c) by (nonlinear_arith)
        requires
            x == c * q,
    ;
    assert(x + k * c == (q + k) * c) by (nonlinear_arith)
        requires
            x == c * q,
    ;
    lemma_mod_multiples_basic(k - q, c);
    lemma_mod_multiples_basic(q + k, c);
}

/// A wrapped distance is zero only between equal indices.
pub proof fn lemma_wrap_distance_zero(t: usize, h: usize)
    ensures
        wrap(t - h) == 0 <==> t == h,
{
    if t >= h {
        lemma_wrap_small(t - h);
    } else {
        lemma_wrap_small(t - h + word_range());
        assert(wrap(word_range()) == 0) by {
            lemma_mod_multiples_basic(1, word_range());
        }
        lemma_add_mod_noop_right(t - h, word_range(), word_range());
    }
}

} // verus!
