//! Powers of two and block alignment.

use vstd::prelude::*;

verus! {

/// Whether `value` is a power of two.
pub open spec fn is_power_of_two(value: nat) -> bool
    decreases value,
{
    if value <= 1 {
        value == 1
    } else {
        value % 2 == 0 && is_power_of_two(value / 2)
    }
}

/// The first of `start`, `2 * start`, `4 * start`, ... that is at least `target`.
pub open spec fn doubled_until(start: nat, target: nat) -> nat
    decreases (if start < target { target - start } else { 0 }),
{
    if start == 0 || start >= target {
        start
    } else {
        doubled_until(2 * start, target)
    }
}

/// The smallest power of two that is at least `value`.
pub open spec fn spec_next_power_of_two(value: nat) -> nat {
    doubled_until(1, value)
}

/// `doubled_until` returns a power of two that is at least `target` and
/// less than twice `target` unless it stopped at `start`.
pub proof fn lemma_doubled_until(start: nat, target: nat)
    requires
        is_power_of_two(start),
    ensures
        is_power_of_two(doubled_until(start, target)),
        doubled_until(start, target) >= target,
        doubled_until(start, target) >= start,
        start < target ==> doubled_until(start, target) < 2 * target,
        start >= target ==> doubled_until(start, target) == start,
    decreases (if start < target { target - start } else { 0 }),
{
    if start >= target {
    } else {
        assert(start >= 1) by {
            reveal_with_fuel(is_power_of_two, 1);
        }
        assert(is_power_of_two(2 * start)) by {
            reveal_with_fuel(is_power_of_two, 2);
            assert((2 * start) / 2 == start);
        }
        lemma_doubled_until(2 * start, target);
    }
}

/// The next power of two is a power of two, at least `value` and below `2 * value`.
pub proof fn lemma_next_power_of_two(value: nat)
    ensures
        is_power_of_two(spec_next_power_of_two(value)),
        spec_next_power_of_two(value) >= value,
        spec_next_power_of_two(value) >= 1,
        value >= 1 ==> spec_next_power_of_two(value) < 2 * value,
{
    lemma_doubled_until(1, value);
}

/// A power of two that is at least 8 is a multiple of 8.
pub proof fn lemma_power_of_two_multiple_of_eight(value: nat)
    requires
        is_power_of_two(value),
        value >= 8,
    ensures
        value % 8 == 0,
        is_power_of_two(value / 8),
{
    reveal_with_fuel(is_power_of_two, 5);
    assert(value % 2 == 0);
    let a = value / 2;
    assert(a >= 4 && is_power_of_two(a));
    assert(a % 2 == 0);
    let b = a / 2;
    assert(b >= 2 && is_power_of_two(b));
    assert(b % 2 == 0);
    let c = b / 2;
    assert(is_power_of_two(c));
    assert(value == 8 * c);
    assert(value / 8 == c);
}

/// Of two distinct powers of two the larger is at least twice the smaller.
pub proof fn lemma_power_of_two_gap(small: nat, large: nat)
    requires
        is_power_of_two(small),
        is_power_of_two(large),
        small < large,
    ensures
        2 * small <= large,
    decreases large,
{
    reveal_with_fuel(is_power_of_two, 2);
    if small > 1 {
        lemma_power_of_two_gap(small / 2, large / 2);
    }
}

/// `doubled_until` never passes a power of two that is at least `target`.
pub proof fn lemma_doubled_until_least(start: nat, target: nat, bound: nat)
    requires
        is_power_of_two(start),
        is_power_of_two(bound),
        start <= bound,
        target <= bound,
    ensures
        doubled_until(start, target) <= bound,
    decreases (if start < target { target - start } else { 0 }),
{
    if start >= target {
    } else {
        reveal_with_fuel(is_power_of_two, 2);
        lemma_power_of_two_gap(start, bound);
        assert((2 * start) / 2 == start);
        lemma_doubled_until_least(2 * start, target, bound);
    }
}

/// The next power of two grows with its argument.
pub proof fn lemma_next_power_of_two_monotone(smaller: nat, larger: nat)
    requires
        smaller <= larger,
    ensures
        spec_next_power_of_two(smaller) <= spec_next_power_of_two(larger),
{
    lemma_next_power_of_two(larger);
    reveal_with_fuel(is_power_of_two, 1);
    lemma_doubled_until_least(1, smaller, spec_next_power_of_two(larger));
}

/// The next power of two of a value up to 2^63 is at most 2^63.
pub proof fn lemma_next_power_of_two_bounded(value: nat)
    requires
        value <= 0x8000_0000_0000_0000,
    ensures
        spec_next_power_of_two(value) <= 0x8000_0000_0000_0000,
{
    assert(is_power_of_two(0x1_0000_0000)) by {
        reveal_with_fuel(is_power_of_two, 34);
    }
    assert(is_power_of_two(0x8000_0000_0000_0000)) by {
        lemma_power_of_two_shift(0x1_0000_0000, 31);
        reveal_with_fuel(spec_two_to, 32);
        assert(spec_two_to(31) == 0x8000_0000);
    }
    reveal_with_fuel(is_power_of_two, 1);
    lemma_doubled_until_least(1, value, 0x8000_0000_0000_0000);
}

/// The binary left shift of 1 by `shift` places.
pub open spec fn spec_two_to(shift: nat) -> nat
    decreases shift,
{
    if shift == 0 {
        1
    } else {
        2 * spec_two_to((shift - 1) as nat)
    }
}

/// Doubling a power of two any number of times gives a power of two.
pub proof fn lemma_power_of_two_shift(value: nat, shift: nat)
    requires
        is_power_of_two(value),
    ensures
        is_power_of_two(value * spec_two_to(shift)),
    decreases shift,
{
    if shift == 0 {
        assert(value * 1 == value);
    } else {
        lemma_power_of_two_shift(value, (shift - 1) as nat);
        let half = value * spec_two_to((shift - 1) as nat);
        assert(value * spec_two_to(shift) == 2 * half) by (nonlinear_arith)
            requires
                spec_two_to(shift) == 2 * spec_two_to((shift - 1) as nat),
                half == value * spec_two_to((shift - 1) as nat),
        ;
        reveal_with_fuel(is_power_of_two, 2);
        assert(half >= 1) by {
            reveal_with_fuel(is_power_of_two, 1);
        }
        assert((2 * half) / 2 == half);
    }
}

/// Computes the smallest power of two that is at least `value`.
pub fn next_power_of_two(value: u64) -> (result: u64)
    requires
        value <= 0x8000_0000_0000_0000,
    ensures
        result == spec_next_power_of_two(value as nat),
{
    let mut power: u64 = 1;
    while power < value
        invariant
            value <= 0x8000_0000_0000_0000,
            power >= 1,
            is_power_of_two(power as nat),
            power < 2 * value || power == 1,
            doubled_until(power as nat, value as nat) == spec_next_power_of_two(value as nat),
        decreases (if power < value { value - power } else { 0 }),
    {
        proof {
            reveal_with_fuel(is_power_of_two, 2);
            assert((2 * power) as nat / 2 == power as nat);
        }
        power = power * 2;
    }
    power
}

/// Whether `value` is a power of two.
pub fn power_of_two(value: u64) -> (result: bool)
    ensures
        result == is_power_of_two(value as nat),
{
    if value == 0 || value > 0x8000_0000_0000_0000 {
        proof {
            reveal_with_fuel(is_power_of_two, 1);
            if value > 0x8000_0000_0000_0000 && is_power_of_two(value as nat) {
                lemma_next_power_of_two_bounded(0x8000_0000_0000_0000);
                lemma_next_power_of_two(0x8000_0000_0000_0000);
                lemma_power_of_two_gap(spec_next_power_of_two(0x8000_0000_0000_0000), value as nat);
            }
        }
        return false;
    }
    let next = next_power_of_two(value);
    proof {
        lemma_next_power_of_two(value as nat);
        if is_power_of_two(value as nat) {
            reveal_with_fuel(is_power_of_two, 1);
            lemma_doubled_until_least(1, value as nat, value as nat);
        }
    }
    next == value
}

/// `position` rounded up to the next multiple of `block_size`.
pub open spec fn spec_align_up(position: int, block_size: int) -> int {
    if position % block_size == 0 {
        position
    } else {
        position + (block_size - position % block_size)
    }
}

/// Rounding up preserves order.
pub proof fn lemma_align_up_monotone(smaller: int, larger: int, block_size: int)
    requires
        0 <= smaller <= larger,
        0 < block_size,
    ensures
        spec_align_up(smaller, block_size) <= spec_align_up(larger, block_size),
{
    lemma_align_up(smaller, block_size);
    lemma_align_up(larger, block_size);
    let a = spec_align_up(smaller, block_size);
    let b = spec_align_up(larger, block_size);
    if a > b {
        assert(false) by (nonlinear_arith)
            requires
                a % block_size == 0,
                b % block_size == 0,
                smaller <= a < smaller + block_size,
                larger <= b < larger + block_size,
                smaller <= larger,
                a > b,
                0 < block_size,
        {
            let qa = a / block_size;
            let qb = b / block_size;
            assert(a == qa * block_size);
            assert(b == qb * block_size);
            assert(qa > qb);
            assert(qa >= qb + 1);
            assert(a >= b + block_size);
        }
    }
}

/// Rounding up yields the least multiple of `block_size` at or after `position`.
pub proof fn lemma_align_up(position: int, block_size: int)
    requires
        0 <= position,
        0 < block_size,
    ensures
        spec_align_up(position, block_size) % block_size == 0,
        position <= spec_align_up(position, block_size) < position + block_size,
{
    let r = position % block_size;
    if r != 0 {
        let aligned = position + (block_size - r);
        assert(aligned % block_size == 0) by (nonlinear_arith)
            requires
                r == position % block_size,
                aligned == position + (block_size - r),
                0 < block_size,
                0 <= position,
        {
            let q = position / block_size;
            assert(position == q * block_size + r);
            assert(aligned == (q + 1) * block_size);
        }
    }
}

} // verus!
