//! Large-region size classes.
//!
//! Requests on the large path are rounded up to a class so that freed regions
//! become interchangeable in the cache. Classes follow a 1.00 / 1.25 / 1.50 /
//! 1.75 x 2^b grid, which caps internal waste at 25%: much tighter than
//! power-of-two doubling, which matters when the regions are tens or hundreds
//! of megabytes.

use vstd::arithmetic::power2::{is_pow2, pow2};
use vstd::prelude::*;

use crate::config::{CACHE_MAX_REGION, HUGE_PAGE, LARGE_THRESHOLD, MAX_CLASSES, PAGE};

verus! {

/// log2 of [`LARGE_THRESHOLD`]; the grid starts at this power.
pub const B_MIN: usize = 16;

/// The size class for a request: its index (for cache bucketing) and the actual
/// number of bytes a region of that class spans.
#[derive(Clone, Copy, Debug, PartialEq, Eq, Structural)]
pub struct Class {
    pub index: usize,
    pub total: usize,
}

/// The bytes that a region of class `index` spans: `(1 + q/4) * 2^b`, where
/// `index` counts the quarter steps `q` and the powers `b` from 2^16 on.
pub open spec fn class_total(index: int) -> int {
    (4 + index % 4) * pow2((B_MIN - 2 + index / 4) as nat)
}

/// The largest size that some class that fits in a `usize` covers: seven
/// quarters of the highest power of two.
pub open spec fn largest_classed() -> int {
    7 * (usize::MAX as int / 8 + 1)
}

/// A size that has a class.
pub open spec fn classed(size: int) -> bool {
    LARGE_THRESHOLD <= size <= largest_classed()
}

/// Whether `c` is the class of `size`: the least class that covers it.
pub open spec fn is_class_of(c: Class, size: int) -> bool {
    &&& c.total == class_total(c.index as int)
    &&& size <= c.total
    &&& c.index > 0 ==> class_total(c.index - 1) < size
}

/// The class of `size`.
pub open spec fn class_for(size: int) -> Class {
    choose|c: Class| is_class_of(c, size)
}

/// The class `q` quarter steps above the power `B_MIN + p`.
proof fn lemma_class_parts(p: int, q: int)
    requires
        p >= 0,
        0 <= q < 4,
    ensures
        class_total(p * 4 + q) == (4 + q) * pow2((B_MIN - 2 + p) as nat),
{
    assert((p * 4 + q) / 4 == p && (p * 4 + q) % 4 == q);
}

/// The grid starts at the threshold.
pub proof fn lemma_grid_start()
    ensures
        LARGE_THRESHOLD == pow2(B_MIN as nat),
        class_total(0) == LARGE_THRESHOLD,
{
    vstd::arithmetic::power2::lemma2_to64();
    lemma_class_parts(0, 0);
}

/// A class spans a positive number of bytes, and the next one spans more.
proof fn lemma_class_step(i: int)
    requires
        i >= 0,
    ensures
        0 < class_total(i) < class_total(i + 1),
{
    let e = (B_MIN - 2 + i / 4) as nat;
    vstd::arithmetic::power2::lemma_pow2_pos(e);
    vstd::arithmetic::power2::lemma_pow2_unfold(e + 1);
    let p = pow2(e) as int;
    let q = i % 4;
    assert((4 + q) * p > 0 && (4 + q) * p < (5 + q) * p && (q == 3 ==> (4 + q) * p == 7 * p)) by (nonlinear_arith)
        requires
            p > 0,
            q >= 0,
    ;
    lemma_class_parts(i / 4, q);
    assert(i / 4 * 4 + q == i);
    if q == 3 {
        lemma_class_parts(i / 4 + 1, 0);
        assert((i / 4 + 1) * 4 + 0 == i + 1);
        assert(class_total(i + 1) == 4 * (2 * p));
    } else {
        lemma_class_parts(i / 4, q + 1);
        assert(i / 4 * 4 + (q + 1) == i + 1);
        assert(class_total(i + 1) == (5 + q) * p);
    }
}

/// Classes are strictly increasing: a higher index spans more bytes.
pub proof fn law_classes_are_strictly_increasing(i: int, j: int)
    requires
        0 <= i < j,
    ensures
        0 < class_total(i) < class_total(j),
    decreases j - i,
{
    lemma_class_step(i);
    if i + 1 < j {
        law_classes_are_strictly_increasing(i + 1, j);
    }
}

/// The class of a size is unique.
pub proof fn lemma_class_unique(c: Class, size: int)
    requires
        is_class_of(c, size),
    ensures
        class_for(size) == c,
{
    let d = class_for(size);
    assert(is_class_of(d, size));
    if c.index < d.index {
        if c.index < d.index - 1 {
            law_classes_are_strictly_increasing(c.index as int, d.index - 1);
        }
    }
    if d.index < c.index {
        if d.index < c.index - 1 {
            law_classes_are_strictly_increasing(d.index as int, c.index - 1);
        }
    }
}

/// `b` is the floor of log2 of `size`.
proof fn lemma_floor_log2(size: u64, b: u64)
    requires
        size != 0,
        b == 63 - vstd::std_specs::bits::u64_leading_zeros(size),
    ensures
        b < 64,
        pow2(b as nat) <= size < pow2((b + 1) as nat),
{
    vstd::std_specs::bits::axiom_u64_leading_zeros(size);
    vstd::arithmetic::power2::lemma_pow2_pos(b as nat);
    vstd::arithmetic::power2::lemma_pow2_unfold((b + 1) as nat);
    vstd::bits::lemma_u64_shr_is_div(size, b);
    let t = size >> b;
    assert(t != 0) by (bit_vector)
        requires
            t & 1 != 0,
    ;
    let p = pow2(b as nat) as int;
    vstd::arithmetic::div_mod::lemma_fundamental_div_mod(size as int, p);
    assert(p <= size) by (nonlinear_arith)
        requires
            size as int == p * (size as int / p) + size as int % p,
            size as int / p >= 1,
            size as int % p >= 0,
            p > 0,
    ;
    if b < 63 {
        let c = (b + 1) as u64;
        vstd::bits::lemma_u64_shr_is_div(size, c);
        assert(size >> c == 0);
        vstd::arithmetic::div_mod::lemma_fundamental_div_mod(size as int, pow2(c as nat) as int);
    } else {
        vstd::arithmetic::power2::lemma2_to64_rest();
    }
}

/// The power of two at or below `size`, computed by shifts, and its quarter.
proof fn lemma_floor_power(size: usize, b: usize)
    requires
        LARGE_THRESHOLD <= size,
        pow2(b as nat) <= size < pow2((b + 1) as nat),
    ensures
        B_MIN <= b < usize::BITS,
        1usize << b == pow2(b as nat),
        (1usize << b) >> 2 == pow2((b - 2) as nat),
        pow2(b as nat) == 4 * pow2((b - 2) as nat),
        pow2((b - 2) as nat) == 2 * pow2((b - 3) as nat),
        pow2((b - 3) as nat) > 0,
{
    lemma_grid_start();
    if b < B_MIN {
        if b + 1 < B_MIN {
            vstd::arithmetic::power2::lemma_pow2_strictly_increases((b + 1) as nat, B_MIN as nat);
        }
    }
    vstd::arithmetic::power2::lemma2_to64();
    vstd::arithmetic::power2::lemma2_to64_rest();
    if b >= usize::BITS {
        if b > usize::BITS {
            vstd::arithmetic::power2::lemma_pow2_strictly_increases(usize::BITS as nat, b as nat);
        }
    }
    lemma_power_by_shift(b);
    vstd::arithmetic::power2::lemma_pow2_unfold((b - 2) as nat);
    vstd::arithmetic::power2::lemma_pow2_pos((b - 3) as nat);
}

/// Shifts compute a power of two and its quarter.
proof fn lemma_power_by_shift(b: usize)
    requires
        2 <= b < usize::BITS,
    ensures
        1usize << b == pow2(b as nat),
        (1usize << b) >> 2 == pow2((b - 2) as nat),
        pow2(b as nat) == 4 * pow2((b - 2) as nat),
{
    vstd::bits::lemma_usize_pow2_no_overflow(b as nat);
    vstd::bits::lemma_usize_shl_is_mul(1, b);
    let base = 1usize << b;
    vstd::bits::lemma_usize_shr_is_div(base, 2);
    vstd::arithmetic::power2::lemma2_to64();
    vstd::arithmetic::power2::lemma_pow2_unfold(b as nat);
    vstd::arithmetic::power2::lemma_pow2_unfold((b - 1) as nat);
}

/// A size that has a class and rounds up to the next power leaves room for it.
proof fn lemma_top_power(size: usize, b: usize, q: usize)
    requires
        size <= largest_classed(),
        3 <= b < usize::BITS,
        q == 4 ==> pow2(b as nat) + 3 * pow2((b - 2) as nat) < size,
    ensures
        q == 4 ==> b + 1 < usize::BITS,
{
    vstd::arithmetic::power2::lemma2_to64();
    vstd::arithmetic::power2::lemma2_to64_rest();
}

/// A class below twice the highest power of two fits in a `usize`.
proof fn lemma_region_fits(b: usize, q: usize)
    requires
        2 <= b < usize::BITS,
        q < 4,
    ensures
        pow2(b as nat) + q * pow2((b - 2) as nat) == (4 + q) * pow2((b - 2) as nat),
        0 <= q * pow2((b - 2) as nat),
        pow2(b as nat) + q * pow2((b - 2) as nat) <= usize::MAX,
{
    lemma_power_by_shift(b);
    vstd::arithmetic::power2::lemma2_to64();
    vstd::arithmetic::power2::lemma2_to64_rest();
    if b < usize::BITS - 1 {
        vstd::arithmetic::power2::lemma_pow2_strictly_increases(
            b as nat,
            (usize::BITS - 1) as nat,
        );
    }
    let s = pow2((b - 2) as nat) as int;
    assert(4 * s + q * s == (4 + q) * s && 0 <= q * s <= 3 * s) by (nonlinear_arith)
        requires
            0 <= q < 4,
            s >= 0,
    ;
}

/// Rounding up to a quarter step finds the least class that covers `size`.
proof fn lemma_least_class(size: int, b: int, q: int)
    requires
        b >= B_MIN,
        0 <= q <= 4,
        pow2(b as nat) <= size,
        pow2(b as nat) == 4 * pow2((b - 2) as nat),
        (q - 1) * pow2((b - 2) as nat) < size - pow2(b as nat) <= q * pow2((b - 2) as nat),
    ensures
        ({
            let i = (b - B_MIN) * 4 + q;
            &&& class_total(i) == (4 + q) * pow2((b - 2) as nat)
            &&& size <= class_total(i)
            &&& i > 0 ==> class_total(i - 1) < size
        }),
{
    let s = pow2((b - 2) as nat) as int;
    vstd::arithmetic::power2::lemma_pow2_pos((b - 2) as nat);
    assert((4 + q) * s == 4 * s + q * s && (3 + q) * s == 4 * s + (q - 1) * s)
        by (nonlinear_arith);
    let p = b - B_MIN;
    if q == 4 {
        lemma_class_parts(p + 1, 0);
        lemma_class_parts(p, 3);
        vstd::arithmetic::power2::lemma_pow2_unfold((b - 1) as nat);
    } else {
        lemma_class_parts(p, q);
        if q > 0 {
            lemma_class_parts(p, q - 1);
        } else if p > 0 {
            lemma_class_parts(p - 1, 3);
            vstd::arithmetic::power2::lemma_pow2_unfold((b - 2) as nat);
        }
    }
}

/// `q` is the least number of steps that reaches `d`.
proof fn lemma_quarter_steps(d: int, step: int, q: int)
    requires
        step > 0,
        0 <= d < 4 * step,
        q == d / step + if d % step > 0 { 1int } else { 0int },
    ensures
        0 <= q <= 4,
        (q - 1) * step < d <= q * step,
{
    vstd::arithmetic::div_mod::lemma_fundamental_div_mod(d, step);
    let e = d / step;
    assert(0 <= e < 4) by (nonlinear_arith)
        requires
            d == step * e + d % step,
            0 <= d % step < step,
            0 <= d < 4 * step,
            step > 0,
    ;
    assert((q - 1) * step < d <= q * step) by (nonlinear_arith)
        requires
            d == step * e + d % step,
            0 <= d % step < step,
            q == e + if d % step > 0 { 1int } else { 0int },
            step > 0,
    ;
}

/// Round `size` up to its size class. The result depends on `size` alone, so
/// freeing a region recovers the exact same class from its layout.
pub fn class_of(size: usize) -> (r: Class)
    requires
        classed(size as int),
    ensures
        is_class_of(r, size as int),
        r == class_for(size as int),
{
    let mut b: usize = 63 - (size as u64).leading_zeros() as usize;
    proof {
        lemma_floor_log2(size as u64, b as u64);
        lemma_floor_power(size, b);
    }
    let base: usize = 1usize << b;
    let step: usize = base >> 2;  // a quarter of the power: the grid spacing
    let d: usize = size - base;
    // How many quarter steps above `base` are needed, rounded up.
    let mut q: usize = d / step + if d % step > 0 { 1usize } else { 0usize };
    proof {
        vstd::arithmetic::power2::lemma_pow2_unfold((b + 1) as nat);
        lemma_quarter_steps(d as int, step as int, q as int);
        lemma_top_power(size, b, q);
        lemma_least_class(size as int, b as int, q as int);
    }
    if q == 4 {
        // 2.0 x 2^b is just the next power's 1.0x class.
        b = b + 1;
        q = 0;
        proof {
            lemma_power_by_shift(b);
        }
    }
    proof {
        lemma_region_fits(b, q);
    }
    let total: usize = (1usize << b) + q * ((1usize << b) >> 2);
    let index: usize = (b - B_MIN) * 4 + q;
    let class = Class { index, total };
    proof {
        lemma_class_unique(class, size as int);
    }
    class
}

/// Alignment that a region of `total` bytes is mapped to.
pub open spec fn region_align_for(total: int) -> int {
    if total >= HUGE_PAGE {
        HUGE_PAGE as int
    } else {
        PAGE as int
    }
}

/// Alignment that a region of `total` bytes is mapped to: huge-page-aligned
/// once it is large enough to benefit from huge pages, page-aligned otherwise.
pub fn region_align(total: usize) -> (r: usize)
    ensures
        r == region_align_for(total as int),
{
    if total >= HUGE_PAGE {
        HUGE_PAGE
    } else {
        PAGE
    }
}

/// The alignment of a region is a power of two.
pub proof fn lemma_region_align_is_pow2(total: int)
    ensures
        is_pow2(region_align_for(total)),
        is_pow2(HUGE_PAGE as int),
        is_pow2(PAGE as int),
{
    vstd::arithmetic::power2::lemma2_to64();
    vstd::arithmetic::power2::lemma_pow2(12);
    vstd::arithmetic::power2::lemma_pow2(21);
    vstd::arithmetic::power2::is_pow2_equiv(HUGE_PAGE as int);
    vstd::arithmetic::power2::is_pow2_equiv(PAGE as int);
}

/// The index of the highest class that fits in a `usize`.
spec fn top_index() -> int {
    (usize::BITS - 1 - B_MIN) * 4 + 3
}

/// The highest class spans exactly the largest size that has a class.
proof fn lemma_top_class()
    ensures
        class_total(top_index()) == largest_classed(),
{
    vstd::arithmetic::power2::lemma2_to64();
    vstd::arithmetic::power2::lemma2_to64_rest();
    lemma_class_parts(usize::BITS - 1 - B_MIN, 3);
}

/// Some class up to `i` is the least one to cover `size`, if class `i` does.
proof fn lemma_least_class_below(size: int, i: int) -> (c: Class)
    requires
        0 <= i <= top_index(),
        size <= class_total(i),
    ensures
        is_class_of(c, size),
        c.index <= i,
    decreases i,
{
    if i > 0 && size <= class_total(i - 1) {
        lemma_least_class_below(size, i - 1)
    } else {
        lemma_top_class();
        if i < top_index() {
            law_classes_are_strictly_increasing(i, top_index());
        }
        if i > 0 {
            law_classes_are_strictly_increasing(0, i);
        }
        lemma_grid_start();
        Class { index: i as usize, total: class_total(i) as usize }
    }
}

/// Every size from the threshold up to the largest classed one has a class,
/// which is again such a size, and a whole number of pages.
pub proof fn lemma_class_exists(size: int)
    requires
        classed(size),
    ensures
        is_class_of(class_for(size), size),
        classed(class_for(size).total as int),
        class_for(size).total % PAGE == 0,
{
    lemma_top_class();
    let c = lemma_least_class_below(size, top_index());
    lemma_class_unique(c, size);
    if c.index < top_index() {
        law_classes_are_strictly_increasing(c.index as int, top_index());
    }
    let e = (c.index / 4) as nat;
    vstd::arithmetic::power2::lemma2_to64();
    vstd::arithmetic::power2::lemma_pow2_adds(2 + e, 12);
    let k = (4 + c.index % 4) * pow2(2 + e);
    assert(c.total == k * 4096) by (nonlinear_arith)
        requires
            c.total == (4 + c.index % 4) * pow2((2 + e + 12) as nat),
            pow2((2 + e + 12) as nat) == pow2(2 + e) * 4096,
            k == (4 + c.index % 4) * pow2(2 + e),
    ;
    vstd::arithmetic::div_mod::lemma_mod_multiples_basic(k, 4096);
}

/// A class is at least as large as the request, and at most a quarter of it is
/// waste.
pub proof fn law_class_covers_request_within_a_quarter(size: int)
    requires
        classed(size),
    ensures
        size <= class_for(size).total,
        (class_for(size).total - size) * 4 <= class_for(size).total,
{
    lemma_class_exists(size);
    lemma_grid_start();
    let c = class_for(size);
    let i = c.index as int;
    let q = i % 4;
    let e = i / 4;
    if i > 0 {
        let s = pow2((B_MIN - 2 + e) as nat) as int;
        assert((4 + q) * s == 4 * s + q * s && (3 + q) * s == 3 * s + q * s && q * s >= 0)
            by (nonlinear_arith)
            requires
                q >= 0,
                s >= 0,
        ;
        lemma_class_parts(e, q);
        if q > 0 {
            lemma_class_parts(e, q - 1);
            assert(e * 4 + (q - 1) == i - 1);
        } else {
            lemma_class_parts(e - 1, 3);
            assert((e - 1) * 4 + 3 == i - 1);
            vstd::arithmetic::power2::lemma_pow2_unfold((B_MIN - 2 + e) as nat);
        }
    }
}

/// Every class lies on the grid: its regions span 1.00, 1.25, 1.50 or 1.75 times
/// a power of two from 2^16 on, that is `(4 + q) * 2^k` bytes for some `q` below 4
/// and some `k` from 14 on, and its index counts the grid points below it.
pub proof fn law_class_lies_on_the_grid(size: int) -> (point: (int, nat))
    requires
        classed(size),
    ensures
        0 <= point.0 < 4,
        point.1 >= 14,
        class_for(size).total == (4 + point.0) * pow2(point.1),
        class_for(size).index == (point.1 - 14) * 4 + point.0,
{
    lemma_class_exists(size);
    let i = class_for(size).index as int;
    lemma_class_parts(i / 4, i % 4);
    (i % 4, (14 + i / 4) as nat)
}

/// The class of a request is the tightest there is: no grid point that covers the
/// request spans less.
pub proof fn law_class_is_the_least_on_the_grid(size: int, q: int, k: nat)
    requires
        classed(size),
        0 <= q < 4,
        k >= 14,
        size <= (4 + q) * pow2(k),
    ensures
        size <= class_for(size).total <= (4 + q) * pow2(k),
{
    lemma_class_exists(size);
    lemma_class_parts(k - 14, q);
    let i = (k - 14) * 4 + q;
    let j = class_for(size).index as int;
    if i < j {
        if i < j - 1 {
            law_classes_are_strictly_increasing(i, j - 1);
        }
    } else if j < i {
        law_classes_are_strictly_increasing(j, i);
    }
}

/// Every size that a layout can have, from the threshold on, has a class; a size
/// without one is covered by no grid point that fits in a `usize`.
pub proof fn law_every_layout_has_a_class(size: int, q: int, k: nat)
    requires
        size >= LARGE_THRESHOLD,
        0 <= q < 4,
        k >= 14,
    ensures
        size <= isize::MAX ==> classed(size),
        !classed(size) && size <= (4 + q) * pow2(k) ==> (4 + q) * pow2(k) > usize::MAX,
{
    vstd::arithmetic::power2::lemma2_to64();
    vstd::arithmetic::power2::lemma2_to64_rest();
    lemma_class_parts(k - 14, q);
    let i = (k - 14) * 4 + q;
    lemma_top_class();
    if i < top_index() {
        law_classes_are_strictly_increasing(i, top_index());
    } else if i > top_index() {
        lemma_class_parts(usize::BITS - B_MIN, 0);
        if i > top_index() + 1 {
            law_classes_are_strictly_increasing(top_index() + 1, i);
        }
    }
}

/// A region that a huge page fits in is aligned to one, and any other to a page.
pub proof fn law_region_alignment_is_a_huge_page_or_a_page(total: int)
    ensures
        total >= HUGE_PAGE <==> region_align_for(total) == HUGE_PAGE,
        total < HUGE_PAGE <==> region_align_for(total) == PAGE,
{
}

/// The size of a class is a fixed point: a request for exactly a class's bytes
/// gets that class, so a region is recognised by its own size as well as by
/// that of the request it serves.
pub proof fn law_class_is_a_fixed_point(size: int)
    requires
        classed(size),
    ensures
        class_for(class_for(size).total as int) == class_for(size),
{
    lemma_class_exists(size);
    let c = class_for(size);
    if c.index > 0 {
        law_classes_are_strictly_increasing(c.index - 1, c.index as int);
    }
    lemma_class_unique(c, c.total as int);
}

/// A larger request never gets a smaller class.
pub proof fn law_class_is_monotone(small: int, large: int)
    requires
        classed(small),
        classed(large),
        small <= large,
    ensures
        class_for(small).index <= class_for(large).index,
        class_for(small).total <= class_for(large).total,
{
    lemma_class_exists(small);
    lemma_class_exists(large);
    let i = class_for(small).index as int;
    let j = class_for(large).index as int;
    if j < i {
        if j < i - 1 {
            law_classes_are_strictly_increasing(j, i - 1);
        }
    } else if i < j {
        law_classes_are_strictly_increasing(i, j);
    }
}

/// Two requests share a list in the cache exactly if their regions are of the
/// same size, so the regions of one list are interchangeable.
pub proof fn law_same_index_means_same_total(a: int, b: int)
    requires
        classed(a),
        classed(b),
    ensures
        class_for(a).index == class_for(b).index <==> class_for(a).total == class_for(b).total,
{
    lemma_class_exists(a);
    lemma_class_exists(b);
    let i = class_for(a).index as int;
    let j = class_for(b).index as int;
    if i < j {
        law_classes_are_strictly_increasing(i, j);
    } else if j < i {
        law_classes_are_strictly_increasing(j, i);
    }
}

/// A class that is small enough to be retained has a list in every shard.
pub proof fn law_retained_class_has_a_list(size: int)
    requires
        classed(size),
        class_for(size).total <= CACHE_MAX_REGION,
    ensures
        class_for(size).index < MAX_CLASSES,
{
    lemma_class_exists(size);
    vstd::arithmetic::power2::lemma2_to64();
    lemma_class_parts(12, 0);
    assert(class_total(48) == CACHE_MAX_REGION);
    if class_for(size).index > 48 {
        law_classes_are_strictly_increasing(48, class_for(size).index as int);
    }
}

} // verus!
