//! Arithmetic of ring buffers whose capacity is a power of two and whose
//! positions are `usize` counters that wrap around at `usize::MAX + 1`.
//!
//! A position `p` selects slot `p & (capacity - 1)`, which equals
//! `p % capacity`; because the capacity divides `usize::MAX + 1`, the slot of
//! a wrapped position is the slot of the unwrapped one.

use vstd::prelude::*;
use vstd::arithmetic::div_mod::*;
use vstd::arithmetic::power2::*;
use vstd::bits::*;

verus! {

/// The number of distinct `usize` values.
pub open spec fn modulus() -> int {
    usize::MAX as int + 1
}

/// The `usize` that an unbounded position wraps to.
pub open spec fn wrap(x: int) -> usize {
    (x % modulus()) as usize
}

/// The position after `x`, wrapping from `usize::MAX` to zero.
pub open spec fn successor(x: usize) -> usize {
    if x == usize::MAX {
        0
    } else {
        (x + 1) as usize
    }
}

/// Number of steps from position `from` forward to position `to`.
pub open spec fn distance(from: usize, to: usize) -> nat {
    wrap(to - from) as nat
}

/// A capacity that a ring buffer accepts: a power of two that fits in `usize`.
pub open spec fn is_ring_capacity(cap: int) -> bool {
    is_pow2(cap) && cap <= usize::MAX
}

/// Whether `n` is a power of two, as the ring buffers require of their
/// capacity.
pub fn is_power_of_two(n: usize) -> (result: bool)
    ensures
        result == is_ring_capacity(n as int),
{
    if n == 0 {
        proof {
            reveal(is_pow2);
        }
        return false;
    }
    let mut m = n;
    while m % 2 == 0
        invariant
            m > 0,
            is_pow2(m as int) == is_pow2(n as int),
        decreases m,
    {
        proof {
            reveal(is_pow2);
        }
        m = m / 2;
    }
    proof {
        reveal(is_pow2);
    }
    m == 1
}

/// The slot that an unbounded position occupies.
pub open spec fn slot_of(pos: int, cap: int) -> int {
    pos % cap
}

proof fn lemma_modulus_is_pow2()
    ensures
        modulus() == pow2(usize::BITS as nat),
{
    lemma2_to64();
}

/// A power of two that fits in `usize` is `2^e` for an `e` below the word size.
proof fn lemma_exponent(cap: int) -> (e: nat)
    requires
        is_ring_capacity(cap),
    ensures
        pow2(e) == cap,
        e < usize::BITS,
{
    is_pow2_equiv(cap);
    let e = choose|i: nat| vstd::arithmetic::power::pow(2, i) == cap;
    lemma_pow2(e);
    lemma_modulus_is_pow2();
    if e >= usize::BITS {
        if e > usize::BITS {
            lemma_pow2_strictly_increases(usize::BITS as nat, e);
        }
        assert(false);
    }
    e
}

/// Facts about a ring capacity: it is positive, divides the modulus and is at
/// most half of it.
pub proof fn lemma_ring_capacity(cap: int)
    requires
        is_ring_capacity(cap),
    ensures
        cap >= 1,
        modulus() % cap == 0,
        2 * cap <= modulus(),
{
    let e = lemma_exponent(cap);
    lemma_pow2_pos(e);
    lemma_modulus_is_pow2();
    let w = usize::BITS as nat;
    let q = pow2((w - e) as nat) as int;
    lemma_pow2_adds(e, (w - e) as nat);
    assert(e + (w - e) as nat == w);
    assert(modulus() == cap * q);
    vstd::arithmetic::mul::lemma_mul_is_commutative(cap, q);
    lemma_mod_multiples_basic(q, cap);
    lemma_pow2_adds(e, 1);
    lemma2_to64();
    if e + 1 < w {
        lemma_pow2_strictly_increases(e + 1, w);
    }
}

/// Masking a position with `capacity - 1` selects its slot.
pub proof fn lemma_mask_is_slot(pos: usize, cap: usize)
    requires
        is_ring_capacity(cap as int),
    ensures
        pos & ((cap - 1) as usize) == slot_of(pos as int, cap as int),
{
    let e = lemma_exponent(cap as int);
    lemma_pow2_pos(e);
    assert(low_bits_mask(e) == cap - 1);
    lemma_usize_low_bits_mask_is_mod(pos, e);
}

/// Wrapping a position does not change its slot.
pub proof fn lemma_wrap_slot(x: int, cap: int)
    requires
        is_ring_capacity(cap),
    ensures
        slot_of(wrap(x) as int, cap) == slot_of(x, cap),
{
    lemma_ring_capacity(cap);
    let q = modulus() / cap;
    lemma_fundamental_div_mod(modulus(), cap);
    assert(cap * q == modulus());
    lemma_mod_bound(x, modulus());
    lemma_mod_mod(x, cap, q);
}

/// `wrapping_add` on `usize` is addition followed by wrapping.
pub proof fn lemma_wrapping_add(x: usize, y: usize)
    ensures
        vstd::wrapping::usize_specs::wrapping_add(x, y) == wrap(x + y),
{
    let s = x + y;
    if s > usize::MAX {
        lemma_mod_add_multiples_vanish(s - modulus(), modulus());
        lemma_small_mod((s - modulus()) as nat, modulus() as nat);
    } else {
        lemma_small_mod(s as nat, modulus() as nat);
    }
}

/// `wrapping_sub` on `usize` is subtraction followed by wrapping.
pub proof fn lemma_wrapping_sub(x: usize, y: usize)
    ensures
        vstd::wrapping::usize_specs::wrapping_sub(x, y) == wrap(x - y),
{
    let d = x - y;
    if d < 0 {
        lemma_mod_add_multiples_vanish(d, modulus());
        lemma_small_mod((d + modulus()) as nat, modulus() as nat);
    } else {
        lemma_small_mod(d as nat, modulus() as nat);
    }
}

/// The successor of a position is the position one step on, wrapped.
pub proof fn lemma_successor(x: usize)
    ensures
        successor(x) == wrap(x + 1),
        successor(x) == vstd::wrapping::usize_specs::wrapping_add(x, 1),
{
    lemma_wrapping_add(x, 1);
}

/// A wrapped value is in range and is unchanged by wrapping again.
pub proof fn lemma_wrap_basics(x: int)
    ensures
        0 <= x % modulus() < modulus(),
        wrap(x) as int == x % modulus(),
        wrap(wrap(x) as int) == wrap(x),
        0 <= x < modulus() ==> wrap(x) as int == x,
{
    lemma_mod_bound(x, modulus());
    lemma_mod_twice(x, modulus());
    if 0 <= x < modulus() {
        lemma_small_mod(x as nat, modulus() as nat);
    }
}

/// Adding to a wrapped value and wrapping is the same as wrapping the sum.
pub proof fn lemma_wrap_add(a: int, b: int)
    ensures
        wrap(wrap(a) + b) == wrap(a + b),
{
    lemma_wrap_basics(a);
    lemma_add_mod_noop(a, b, modulus());
    lemma_add_mod_noop(wrap(a) as int, b, modulus());
    lemma_mod_twice(a, modulus());
}

/// Subtracting wrapped values and wrapping is the same as wrapping the
/// difference.
pub proof fn lemma_wrap_sub(a: int, b: int)
    ensures
        wrap(wrap(a) - wrap(b)) == wrap(a - b),
{
    lemma_wrap_basics(a);
    lemma_wrap_basics(b);
    lemma_sub_mod_noop(a, b, modulus());
    lemma_sub_mod_noop(wrap(a) as int, wrap(b) as int, modulus());
    lemma_mod_twice(a, modulus());
    lemma_mod_twice(b, modulus());
}

/// Values that wrap to the same position also agree, wrapped, when doubled,
/// and when doubled plus one.
pub proof fn lemma_wrap_double(a: int, b: int)
    requires
        wrap(a) == wrap(b),
    ensures
        wrap(2 * a) == wrap(2 * b),
        wrap(2 * a + 1) == wrap(2 * b + 1),
{
    lemma_wrap_basics(a);
    lemma_wrap_basics(b);
    lemma_mul_mod_noop_right(2, a, modulus());
    lemma_mul_mod_noop_right(2, b, modulus());
    lemma_add_mod_noop(2 * a, 1, modulus());
    lemma_add_mod_noop(2 * b, 1, modulus());
}

/// The distance from `h` to `h + n` is `n`, for `n` below the modulus.
pub proof fn lemma_distance_forward(h: usize, n: int)
    requires
        0 <= n < modulus(),
    ensures
        distance(h, wrap(h + n)) == n,
{
    lemma_wrap_basics(h as int);
    lemma_wrap_sub(h + n, h as int);
    lemma_wrap_basics(n);
}

/// Two offsets below the capacity from one position land in the same slot
/// only if they are equal.
pub proof fn lemma_offsets_distinct(h: int, a: int, b: int, cap: int)
    requires
        cap > 0,
        0 <= a < cap,
        0 <= b < cap,
        slot_of(h + a, cap) == slot_of(h + b, cap),
    ensures
        a == b,
{
    lemma_mod_equivalence(h + a, h + b, cap);
    assert((h + a) - (h + b) == a - b);
    if a - b >= 0 {
        lemma_small_mod((a - b) as nat, cap as nat);
    } else {
        lemma_mod_add_multiples_vanish(a - b, cap);
        lemma_small_mod((cap + a - b) as nat, cap as nat);
    }
}

/// The offsets `0..cap` from any position cover every slot.
pub proof fn lemma_offset_of_slot(h: int, j: int, cap: int) -> (k: int)
    requires
        cap > 0,
        0 <= j < cap,
    ensures
        0 <= k < cap,
        slot_of(h + k, cap) == j,
{
    lemma_mod_bound(j - h, cap);
    let k = (j - h) % cap;
    lemma_add_mod_noop(h, j - h, cap);
    lemma_add_mod_noop(h, k, cap);
    lemma_mod_twice(j - h, cap);
    lemma_small_mod(j as nat, cap as nat);
    k
}

/// One step past the last offset comes back to the first slot.
pub proof fn lemma_slot_full_turn(h: int, cap: int)
    requires
        cap > 0,
    ensures
        slot_of(h + cap, cap) == slot_of(h, cap),
{
    lemma_mod_add_multiples_vanish(h, cap);
}

} // verus!
