//! From a cursor that counts up for ever to a slot of a ring.
//!
//! A cursor is a `usize` that wraps around. A ring has a power of two of slots, so the number of
//! cursor values is a multiple of the number of slots, and the slot of a cursor can be had with a
//! mask in place of a division.
use vstd::arithmetic::div_mod::*;
use vstd::arithmetic::power::*;
use vstd::arithmetic::power2::*;
use vstd::prelude::*;

verus! {

/// How many values a cursor can take.
pub open spec fn cursor_count() -> int {
    usize::MAX + 1
}

/// The cursor that stands for the `n`-th position of an unbounded count.
pub open spec fn cursor_at(n: int) -> usize {
    (n % cursor_count()) as usize
}

/// The exponent of a power of two that fits a `usize`.
proof fn lemma_exponent(len: int) -> (e: nat)
    requires
        is_pow2(len),
        len <= usize::MAX,
    ensures
        e < usize::BITS,
        pow(2, e) == len,
        len > 0,
        pow(2, usize::BITS as nat) == cursor_count(),
{
    is_pow2_equiv(len);
    let e = choose|e: nat| pow(2, e) == len;
    let bits = usize::BITS as nat;
    lemma_pow_positive(2, e);
    lemma_pow_positive(2, bits);
    lemma2_to64();
    if e >= bits {
        lemma_pow_increases(2, bits, e);
    }
    e
}

/// A power of two that fits a `usize` divides the number of cursor values.
pub proof fn lemma_len_divides_cursor_count(len: int)
    requires
        is_pow2(len),
        len <= usize::MAX,
    ensures
        len > 0,
        cursor_count() % len == 0,
{
    let e = lemma_exponent(len);
    let rest = (usize::BITS - e) as nat;
    lemma_pow_adds(2, rest, e);
    lemma_mod_multiples_basic(pow(2, rest), len);
}

/// Masking a cursor with one less than the number of slots is division with remainder.
proof fn lemma_mask_is_remainder(cursor: usize, mask: usize)
    requires
        is_pow2(mask + 1),
        mask < usize::MAX,
    ensures
        cursor & mask == cursor as int % (mask + 1),
{
    let e = lemma_exponent(mask + 1);
    vstd::bits::lemma_usize_low_bits_mask_is_mod(cursor, e);
}

/// Counting on past the last cursor value reaches the same slot as counting without end.
pub proof fn lemma_cursor_slot(n: int, len: int)
    requires
        is_pow2(len),
        len <= usize::MAX,
    ensures
        len > 0,
        0 <= n % cursor_count() <= usize::MAX,
        cursor_at(n) as int % len == n % len,
{
    lemma_len_divides_cursor_count(len);
    let k = cursor_count() / len;
    lemma_fundamental_div_mod(cursor_count(), len);
    assert(k > 0) by (nonlinear_arith)
        requires
            cursor_count() == len * k,
            cursor_count() > 0,
            len > 0,
    ;
    lemma_mod_mod(n, len, k);
}

/// The same for a slot that lies `ahead` of the cursor, or behind it.
pub proof fn lemma_cursor_slot_ahead(n: int, ahead: int, len: int)
    requires
        is_pow2(len),
        len <= usize::MAX,
    ensures
        (cursor_at(n) + ahead) % len == (n + ahead) % len,
{
    lemma_cursor_slot(n, len);
    lemma_add_mod_noop(cursor_at(n) as int, ahead, len);
    lemma_add_mod_noop(n, ahead, len);
}

/// Moving a cursor on is moving on in the count.
pub proof fn lemma_cursor_ahead(n: int, ahead: int)
    ensures
        cursor_at(cursor_at(n) + ahead) == cursor_at(n + ahead),
{
    let count = cursor_count();
    lemma_mod_bound(n, count);
    lemma_add_mod_noop(n % count, ahead, count);
    lemma_add_mod_noop(n, ahead, count);
    lemma_mod_twice(n, count);
}

/// A cursor stands for the position of the same number.
pub proof fn lemma_cursor_itself(cursor: usize)
    ensures
        cursor_at(cursor as int) == cursor,
{
    lemma_small_mod(cursor as nat, cursor_count() as nat);
}

/// Adding one with wrap-around moves a cursor on by one.
pub proof fn lemma_next_cursor(cursor: usize)
    ensures
        cursor.wrapping_add(1) == cursor_at(cursor + 1),
{
    if cursor == usize::MAX {
        lemma_mod_self_0(cursor_count());
    } else {
        lemma_cursor_itself((cursor + 1) as usize);
    }
}

/// How far one cursor is ahead of another.
pub open spec fn distance(from: usize, to: usize) -> int {
    (to - from) % cursor_count()
}

/// The distance leads from the one cursor to the other.
pub proof fn lemma_distance(from: usize, to: usize)
    ensures
        0 <= distance(from, to) < cursor_count(),
        cursor_at(from + distance(from, to)) == to,
        to.wrapping_sub(from) == distance(from, to),
{
    let count = cursor_count();
    lemma_mod_bound(to - from, count);
    lemma_cursor_itself(to);
    lemma_add_mod_noop_right(from as int, to - from, count);
    if to < from {
        lemma_mod_add_multiples_vanish(to - from, count);
        lemma_small_mod((to - from + count) as nat, count as nat);
    } else {
        lemma_small_mod((to - from) as nat, count as nat);
    }
}

/// A cursor that is reached within one turn is at just that distance.
pub proof fn lemma_distance_of(from: usize, ahead: int)
    requires
        0 <= ahead < cursor_count(),
    ensures
        distance(from, cursor_at(from + ahead)) == ahead,
{
    let count = cursor_count();
    lemma_mod_bound(from + ahead, count);
    lemma_sub_mod_noop((from + ahead) % count, from as int, count);
    lemma_sub_mod_noop(from + ahead, from as int, count);
    lemma_mod_twice(from + ahead, count);
    lemma_small_mod(ahead as nat, count as nat);
}

/// Positions less than one turn of the cursors apart have different cursors.
pub proof fn lemma_cursors_differ(m: int, n: int)
    requires
        m < n,
        n - m < cursor_count(),
    ensures
        cursor_at(m) != cursor_at(n),
{
    let count = cursor_count();
    lemma_mod_bound(m, count);
    lemma_mod_bound(n, count);
    lemma_slots_differ(m, n, count);
}

/// Positions less than one turn apart are different slots.
pub proof fn lemma_slots_differ(m: int, n: int, len: int)
    requires
        m < n,
        n - m < len,
    ensures
        m % len != n % len,
{
    if m % len == n % len {
        lemma_mod_equivalence(n, m, len);
        lemma_small_mod((n - m) as nat, len as nat);
    }
}

/// Cursors are counted modulo the number of values of `usize`, and the distance between two is what
/// subtraction with wrap-around gives.
pub proof fn law_cursors(n: int, from: usize, to: usize)
    ensures
        cursor_count() == usize::MAX + 1,
        cursor_at(n) as int == n % (usize::MAX + 1),
        distance(from, to) == (to - from) % (usize::MAX + 1),
        distance(from, to) == to.wrapping_sub(from),
{
    lemma_mod_bound(n, cursor_count());
    lemma_distance(from, to);
}

/// The slot that a cursor stands for.
pub fn slot_index(cursor: usize, mask: usize) -> (index: usize)
    requires
        is_pow2(mask + 1),
        mask < usize::MAX,
    ensures
        index == cursor as int % (mask + 1),
        index <= mask,
{
    proof {
        lemma_mask_is_remainder(cursor, mask);
    }
    cursor & mask
}

/// The slot before the one that a cursor stands for.
pub fn latest_index(cursor: usize, mask: usize) -> (index: usize)
    requires
        is_pow2(mask + 1),
        mask < usize::MAX,
    ensures
        index == (cursor - 1) % (mask + 1),
        index <= mask,
{
    let before: usize = cursor.wrapping_sub(1);
    proof {
        assert(before == cursor_at(cursor - 1)) by {
            if cursor == 0 {
                lemma_mod_add_multiples_vanish(-1, cursor_count());
                lemma_small_mod(
                    usize::MAX as nat,
                    cursor_count() as nat,
                );
            } else {
                lemma_small_mod((cursor - 1) as nat, cursor_count() as nat);
            }
        }
        lemma_cursor_slot(cursor - 1, mask + 1);
    }
    slot_index(before, mask)
}

} // verus!
