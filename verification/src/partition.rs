//! Splitting the 32-bit address space into one interval per worker.

use vstd::prelude::*;

verus! {

/// The highest address of the 32-bit address space.
pub const ADDRESS_MAX: u32 = 0xFFFF_FFFF;

/// One worker's slice of the address space, both bounds inclusive.
#[derive(Debug, Clone, Copy, PartialEq, Eq, Structural)]
pub struct Interval {
    pub start_addr: u32,
    pub end_addr: u32,
}

/// Why no interval was computed.
#[derive(Debug, Clone, Copy, PartialEq, Eq, Structural)]
pub enum InvalidPartition {
    /// The worker index is not below the worker count.
    Index,
    /// The stride is not a power of two.
    Stride,
}

impl InvalidPartition {
    /// The text for this error.
    pub fn message(&self) -> (text: &'static str)
        ensures
            text@ == match *self {
                InvalidPartition::Index => "Invalid index specified"@,
                InvalidPartition::Stride => "Invalid additive offset"@,
            },
    {
        match self {
            InvalidPartition::Index => "Invalid index specified",
            InvalidPartition::Stride => "Invalid additive offset",
        }
    }
}

/// `n` is 1, 2, 4, 8, ...
pub open spec fn is_power_of_two(n: nat) -> bool
    decreases n,
{
    n == 1 || (n >= 2 && n % 2 == 0 && is_power_of_two(n / 2))
}

/// The width of one worker's share: the address space divided by the number
/// of workers, rounded up.
pub open spec fn share_width(workers: nat) -> nat
    recommends
        workers >= 1,
{
    ((0xFFFF_FFFF + workers - 1) / (workers as int)) as nat
}

/// The largest multiple of `stride` that is not above `x`.
pub open spec fn align_down(x: nat, stride: nat) -> nat
    recommends
        stride >= 1,
{
    (x - x % stride) as nat
}

/// The lower bound of the interval of worker `index`: the start of its share,
/// aligned down, and kept to 32 bits.
pub open spec fn interval_start(index: nat, workers: nat, stride: nat) -> nat {
    align_down(index * share_width(workers), stride) % 0x1_0000_0000
}

/// The upper bound of the interval of worker `index`: the end of its share,
/// aligned down, unless the share reaches the top of the address space: then
/// the top itself, aligned or not.
pub open spec fn interval_end(index: nat, workers: nat, stride: nat) -> nat {
    let raw = (index + 1) * share_width(workers);
    if raw >= 0xFFFF_FFFF {
        0xFFFF_FFFF
    } else {
        align_down(raw, stride)
    }
}

/// Says whether `stride` is a power of two.
pub fn power_of_two(stride: u32) -> (r: bool)
    ensures
        r == is_power_of_two(stride as nat),
{
    let mut rest: u32 = stride;
    while rest >= 2 && rest % 2 == 0
        invariant
            is_power_of_two(rest as nat) == is_power_of_two(stride as nat),
        decreases rest,
    {
        rest = rest / 2;
    }
    rest == 1
}

impl Interval {
    /// The number of steps of `offset` from the lower bound that stay within
    /// the interval.
    pub fn steps(&self, offset: u32) -> (n: u32)
        requires
            self.start_addr <= self.end_addr,
            offset >= 1,
        ensures
            n == (self.end_addr - self.start_addr) / (offset as int),
    {
        (self.end_addr - self.start_addr) / offset
    }

    /// The interval of worker `index` out of `max_threads`, with bounds
    /// aligned to `offset`.
    pub fn get_range(index: usize, max_threads: usize, offset: u32) -> (r: Result<
        Interval,
        InvalidPartition,
    >)
        ensures
            index >= max_threads ==> r == Err::<Interval, InvalidPartition>(
                InvalidPartition::Index,
            ),
            index < max_threads && !is_power_of_two(offset as nat) ==> r == Err::<
                Interval,
                InvalidPartition,
            >(InvalidPartition::Stride),
            index < max_threads && is_power_of_two(offset as nat) ==> r == Ok::<
                Interval,
                InvalidPartition,
            >(
                (Interval {
                    start_addr: interval_start(index as nat, max_threads as nat, offset as nat) as u32,
                    end_addr: interval_end(index as nat, max_threads as nat, offset as nat) as u32,
                }),
            ),
            r is Ok ==> r->Ok_0.start_addr <= r->Ok_0.end_addr,
    {
        if index >= max_threads {
            return Err(InvalidPartition::Index);
        }
        if !power_of_two(offset) {
            return Err(InvalidPartition::Stride);
        }
        let stride: u128 = offset as u128;
        let width: u128 = (0xFFFF_FFFFu128 + max_threads as u128 - 1) / (max_threads as u128);
        proof {
            assert(offset >= 1);
            lemma_share_width_bounds(max_threads as nat);
            lemma_start_below_end(index as nat, max_threads as nat, offset as nat);
            assert(index * width <= 0xFFFF_FFFF_FFFF_FFFF * 0xFFFF_FFFF) by (nonlinear_arith)
                requires
                    index <= 0xFFFF_FFFF_FFFF_FFFF,
                    width <= 0xFFFF_FFFF,
            ;
            assert((index + 1) * width <= 0x1_0000_0000_0000_0000 * 0xFFFF_FFFF)
                by (nonlinear_arith)
                requires
                    index + 1 <= 0x1_0000_0000_0000_0000,
                    width <= 0xFFFF_FFFF,
            ;
        }
        let raw_start: u128 = index as u128 * width;
        let raw_end: u128 = (index as u128 + 1) * width;
        proof {
            lemma_align_down(raw_start as nat, raw_start as nat, offset as nat);
            lemma_align_down(raw_end as nat, raw_end as nat, offset as nat);
        }
        let start: u128 = (raw_start - raw_start % stride) % 0x1_0000_0000u128;
        let end: u128 = if raw_end >= 0xFFFF_FFFFu128 {
            0xFFFF_FFFFu128
        } else {
            raw_end - raw_end % stride
        };
        Ok(Interval { start_addr: start as u32, end_addr: end as u32 })
    }
}

/// A share is at least one address and at most the whole space wide, and
/// the shares of all workers together reach the top of the space.
pub proof fn lemma_share_width_bounds(workers: nat)
    requires
        workers >= 1,
    ensures
        1 <= share_width(workers) <= 0xFFFF_FFFF,
        workers * share_width(workers) >= 0xFFFF_FFFF,
{
    let total = 0xFFFF_FFFF + workers - 1;
    let d = workers as int;
    vstd::arithmetic::div_mod::lemma_fundamental_div_mod(total, d);
    vstd::arithmetic::div_mod::lemma_mod_bound(total, d);
    let q = total / d;
    assert(total == d * q + total % d);
    assert(q >= 1) by (nonlinear_arith)
        requires
            total == d * q + total % d,
            total % d < d,
            total >= d,
            d >= 1,
    ;
    assert(q <= 0xFFFF_FFFF) by (nonlinear_arith)
        requires
            total == d * q + total % d,
            0 <= total % d,
            total == 0xFFFF_FFFF + d - 1,
            d >= 1,
    ;
    assert(workers * share_width(workers) == d * q) by (nonlinear_arith)
        requires
            workers == d,
            share_width(workers) == q,
    ;
}

/// Aligning down lowers a value by less than one stride and keeps the order
/// of two values.
pub proof fn lemma_align_down(x: nat, y: nat, stride: nat)
    requires
        stride >= 1,
        x <= y,
    ensures
        x % stride <= x,
        align_down(x, stride) <= x,
        x < align_down(x, stride) + stride,
        align_down(x, stride) % stride == 0,
        align_down(x, stride) <= align_down(y, stride),
{
    let s = stride as int;
    vstd::arithmetic::div_mod::lemma_fundamental_div_mod(x as int, s);
    vstd::arithmetic::div_mod::lemma_fundamental_div_mod(y as int, s);
    vstd::arithmetic::div_mod::lemma_mod_bound(x as int, s);
    vstd::arithmetic::div_mod::lemma_mod_bound(y as int, s);
    vstd::arithmetic::div_mod::lemma_div_is_ordered(x as int, y as int, s);
    vstd::arithmetic::div_mod::lemma_mod_multiples_basic(x as int / s, s);
    let qx = x as int / s;
    let qy = y as int / s;
    vstd::arithmetic::div_mod::lemma_div_pos_is_pos(x as int, s);
    assert(s * qx >= 0) by (nonlinear_arith)
        requires
            qx >= 0,
            s >= 1,
    ;
    assert(s * qx <= s * qy) by (nonlinear_arith)
        requires
            qx <= qy,
            s >= 1,
    ;
    assert(align_down(x, stride) == s * qx);
    assert(align_down(y, stride) == s * qy);
    assert(s * qx == qx * s) by (nonlinear_arith);
}

/// No interval is empty: its lower bound is not above its upper bound.
pub proof fn lemma_start_below_end(index: nat, workers: nat, stride: nat)
    requires
        index < workers,
        stride >= 1,
    ensures
        interval_start(index, workers, stride) <= interval_end(index, workers, stride),
        interval_end(index, workers, stride) <= 0xFFFF_FFFF,
{
    lemma_share_width_bounds(workers);
    let w = share_width(workers);
    assert(index * w <= (index + 1) * w) by (nonlinear_arith)
        requires
            w >= 0,
    ;
    lemma_align_down(index * w, (index + 1) * w, stride);
    lemma_align_down((index + 1) * w, (index + 1) * w, stride);
}

/// The upper bound of an interval is a multiple of the stride, unless it is
/// the top of the address space.
pub proof fn lemma_end_is_aligned(index: nat, workers: nat, stride: nat)
    requires
        index < workers,
        is_power_of_two(stride),
    ensures
        interval_end(index, workers, stride) == 0xFFFF_FFFF || interval_end(
            index,
            workers,
            stride,
        ) % stride == 0,
{
    lemma_power_of_two_positive(stride);
    let raw = (index + 1) * share_width(workers);
    lemma_align_down(raw, raw, stride);
}

/// Where the end of a worker's share lies below the top of the address
/// space, its interval ends exactly where the next one begins.
pub proof fn lemma_seam(index: nat, workers: nat, stride: nat)
    requires
        index + 1 < workers,
        is_power_of_two(stride),
        (index + 1) * share_width(workers) < 0xFFFF_FFFF,
    ensures
        interval_end(index, workers, stride) == interval_start(index + 1, workers, stride),
{
    lemma_power_of_two_positive(stride);
    let raw = (index + 1) * share_width(workers);
    lemma_align_down(raw, raw, stride);
}

/// A power of two divides every power of two that is not below it.
pub proof fn lemma_power_of_two_divides(n: nat, m: nat)
    requires
        is_power_of_two(n),
        is_power_of_two(m),
        n <= m,
    ensures
        m % n == 0,
    decreases n,
{
    if n >= 2 {
        let half_n = n / 2;
        let half_m = m / 2;
        lemma_power_of_two_divides(half_n, half_m);
        vstd::arithmetic::div_mod::lemma_fundamental_div_mod(half_m as int, half_n as int);
        let q = half_m as int / half_n as int;
        assert(m == n * q) by (nonlinear_arith)
            requires
                m == 2 * half_m,
                n == 2 * half_n,
                half_m == half_n * q,
        ;
        vstd::arithmetic::div_mod::lemma_mod_multiples_basic(q, n as int);
        assert(n * q == q * n) by (nonlinear_arith);
    }
}

/// The lower bound of an interval is a multiple of the stride.
pub proof fn lemma_start_is_aligned(index: nat, workers: nat, stride: nat)
    requires
        is_power_of_two(stride),
        stride <= 0xFFFF_FFFF,
    ensures
        interval_start(index, workers, stride) % stride == 0,
{
    lemma_power_of_two_positive(stride);
    let raw = index * share_width(workers);
    lemma_align_down(raw, raw, stride);
    let space: nat = 0x1_0000_0000;
    assert(is_power_of_two(space)) by {
        reveal_with_fuel(is_power_of_two, 34);
    }
    lemma_power_of_two_divides(stride, space);
    vstd::arithmetic::div_mod::lemma_fundamental_div_mod(space as int, stride as int);
    let q = space as int / stride as int;
    assert(q > 0) by (nonlinear_arith)
        requires
            space == stride * q,
            space > 0,
            stride > 0,
    ;
    vstd::arithmetic::div_mod::lemma_mod_mod(align_down(raw, stride) as int, stride as int, q);
}

/// A power of two is at least 1.
pub proof fn lemma_power_of_two_positive(n: nat)
    requires
        is_power_of_two(n),
    ensures
        n >= 1,
{
}

/// The interval of a worker begins no later than where the interval of the
/// worker before it ends.
pub proof fn lemma_no_gap(index: nat, workers: nat, stride: nat)
    requires
        index + 1 < workers,
        stride >= 1,
    ensures
        interval_start(index + 1, workers, stride) <= interval_end(index, workers, stride),
{
    let raw = (index + 1) * share_width(workers);
    lemma_align_down(raw, raw, stride);
}

/// Every address up to `interval_end(last, ..)` lies in the interval of a
/// worker from 0 to `last`.
proof fn lemma_cover_up_to(last: nat, workers: nat, stride: nat, addr: nat)
    requires
        last < workers,
        stride >= 1,
        addr <= interval_end(last, workers, stride),
    ensures
        exists|i: nat|
            i <= last && interval_start(i, workers, stride) <= addr <= #[trigger] interval_end(
                i,
                workers,
                stride,
            ),
    decreases last,
{
    if last == 0 {
        assert(0 * share_width(workers) == 0) by (nonlinear_arith);
        assert(interval_start(0, workers, stride) == 0);
    } else if addr <= interval_end((last - 1) as nat, workers, stride) {
        lemma_cover_up_to((last - 1) as nat, workers, stride, addr);
    } else {
        lemma_no_gap((last - 1) as nat, workers, stride);
        assert(interval_start(last, workers, stride) <= addr);
    }
}

/// The intervals of workers `0..workers` cover the address space: every
/// 32-bit address lies in one of them, the first begins at 0 and the last
/// ends at the highest address.
pub proof fn lemma_intervals_cover(workers: nat, stride: nat, addr: nat)
    requires
        workers >= 1,
        is_power_of_two(stride),
        addr <= 0xFFFF_FFFF,
    ensures
        exists|i: nat|
            i < workers && interval_start(i, workers, stride) <= addr <= #[trigger] interval_end(
                i,
                workers,
                stride,
            ),
        interval_start(0, workers, stride) == 0,
        interval_end((workers - 1) as nat, workers, stride) == 0xFFFF_FFFF,
{
    lemma_power_of_two_positive(stride);
    lemma_share_width_bounds(workers);
    assert(0 * share_width(workers) == 0) by (nonlinear_arith);
    let last = (workers - 1) as nat;
    assert((last + 1) * share_width(workers) == workers * share_width(workers));
    lemma_cover_up_to(last, workers, stride, addr);
}

} // verus!
