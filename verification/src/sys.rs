//! Aligned windows in the memory that the kernel maps.
//!
//! The kernel promises page alignment and no more. A mapping with a larger
//! alignment is asked for one alignment too long ([`map_request`]), and an
//! aligned window is carved out of what the kernel hands over ([`map`]).

use vstd::arithmetic::power2::{is_pow2, pow2};
use vstd::prelude::*;

use crate::config::{HUGE_PAGE, PAGE};

verus! {

/// The least multiple of `align` that is at least `n`.
pub open spec fn align_up(n: int, align: int) -> int {
    (n + align - 1) / align * align
}

/// `align_up` lands on a multiple of `align`, less than one `align` above `n`.
pub proof fn lemma_align_up(n: int, align: int)
    requires
        align > 0,
    ensures
        align_up(n, align) % align == 0,
        n <= align_up(n, align) < n + align,
{
    let q = (n + align - 1) / align;
    vstd::arithmetic::div_mod::lemma_fundamental_div_mod(n + align - 1, align);
    vstd::arithmetic::mul::lemma_mul_is_commutative(q, align);
    vstd::arithmetic::div_mod::lemma_mod_multiples_basic(q, align);
}

/// No multiple of `align` lies between `n` and `align_up`.
pub proof fn lemma_align_up_is_least(n: int, align: int, p: int)
    requires
        align > 0,
        p % align == 0,
        n <= p,
    ensures
        align_up(n, align) <= p,
{
    lemma_align_up(n, align);
    let a = align_up(n, align);
    if p < a {
        vstd::arithmetic::div_mod::lemma_fundamental_div_mod(p, align);
        vstd::arithmetic::div_mod::lemma_fundamental_div_mod(a, align);
        let x = p / align;
        let y = a / align;
        assert(false) by (nonlinear_arith)
            requires
                p == align * x,
                a == align * y,
                p < a,
                a < p + align,
                align > 0,
        ;
    }
}

/// A power of two is `pow2` of some exponent below the width of `usize`.
pub proof fn lemma_pow2_exponent(a: usize) -> (k: nat)
    requires
        is_pow2(a as int),
    ensures
        a == pow2(k),
        k < usize::BITS,
        a > 0,
{
    vstd::arithmetic::power2::is_pow2_equiv(a as int);
    let k = choose|k: nat| vstd::arithmetic::power::pow(2, k) == a as int;
    vstd::arithmetic::power2::lemma_pow2(k);
    vstd::arithmetic::power2::lemma_pow2_pos(k);
    if k >= usize::BITS {
        vstd::arithmetic::power2::lemma2_to64();
        vstd::arithmetic::power2::lemma2_to64_rest();
        if k > usize::BITS {
            vstd::arithmetic::power2::lemma_pow2_strictly_increases(usize::BITS as nat, k);
        }
    }
    k
}

/// Where rounding up would overflow, the rounded value is out of range too.
pub proof fn lemma_align_up_leaves_address_space(n: usize, align: usize)
    requires
        is_pow2(align as int),
        n + align - 1 > usize::MAX,
    ensures
        align_up(n as int, align as int) > usize::MAX,
{
    let k = lemma_pow2_exponent(align);
    let m = usize::MAX + 1;
    let bits = usize::BITS as nat;
    vstd::arithmetic::power2::lemma2_to64();
    vstd::arithmetic::power2::lemma2_to64_rest();
    vstd::arithmetic::power2::lemma_pow2_adds((bits - k) as nat, k);
    let q = pow2((bits - k) as nat) as int;
    assert(m == q * align);
    vstd::arithmetic::div_mod::lemma_div_multiples_vanish(q, align as int);
    vstd::arithmetic::div_mod::lemma_div_is_ordered(m, n + align - 1, align as int);
    vstd::arithmetic::mul::lemma_mul_is_commutative(q, align as int);
    let p = (n + align - 1) / align as int;
    assert(q * align <= p * align) by (nonlinear_arith)
        requires
            q <= p,
            align > 0,
    ;
}

/// Masking with `!(a - 1)` for a power of two `a` drops the remainder mod `a`.
pub proof fn lemma_mask_drops_remainder(x: usize, a: usize)
    requires
        is_pow2(a as int),
    ensures
        a > 0,
        (x & !((a - 1) as usize)) == x - x % a,
        x & !((a - 1) as usize) == x as int / a as int * a as int,
{
    let k = lemma_pow2_exponent(a);
    let m = (a - 1) as usize;
    vstd::bits::lemma_usize_low_bits_mask_is_mod(x, k);
    assert(vstd::bits::low_bits_mask(k) == m);
    assert(x & m == x % a);
    assert((x & !m) + (x & m) == x) by (bit_vector);
    vstd::arithmetic::div_mod::lemma_fundamental_div_mod(x as int, a as int);
    vstd::arithmetic::mul::lemma_mul_is_commutative(x as int / a as int, a as int);
}

/// Round `n` up to a multiple of the power of two `align`.
pub fn round_up(n: usize, align: usize) -> (r: usize)
    requires
        is_pow2(align as int),
        n + align - 1 <= usize::MAX,
    ensures
        r == align_up(n as int, align as int),
        n <= r < n + align,
        r % align == 0,
{
    proof {
        lemma_pow2_exponent(align);
        lemma_mask_drops_remainder((n + align - 1) as usize, align);
        lemma_align_up(n as int, align as int);
    }
    (n + (align - 1)) & !(align - 1)
}

/// A run of bytes: `len` of them, starting at address `addr`.
#[derive(Clone, Copy, Debug, PartialEq, Eq, Structural)]
pub struct Span {
    pub addr: usize,
    pub len: usize,
}

impl Span {
    /// One past the last byte.
    pub open spec fn end(self) -> int {
        self.addr + self.len
    }

    /// Whether the byte at address `a` lies in the span.
    pub open spec fn covers(self, a: int) -> bool {
        self.addr <= a < self.end()
    }

    /// Whether the two spans share no byte.
    pub open spec fn apart(self, other: Span) -> bool {
        self.end() <= other.addr || other.end() <= self.addr
    }
}

/// Two spans that are apart have no byte in common, and two that have bytes but
/// none in common are apart.
pub proof fn law_apart_means_no_common_byte(a: Span, b: Span)
    ensures
        forall|x: int| #[trigger] a.covers(x) <==> a.addr <= x && x - a.addr < a.len,
        a.apart(b) ==> forall|x: int| !(#[trigger] a.covers(x) && #[trigger] b.covers(x)),
        a.len > 0 && b.len > 0 && !a.apart(b) ==> exists|x: int| #[trigger]
            a.covers(x) && #[trigger] b.covers(x),
{
    if a.len > 0 && b.len > 0 && !a.apart(b) {
        let x = if a.addr >= b.addr {
            a.addr as int
        } else {
            b.addr as int
        };
        assert(a.covers(x) && b.covers(x));
    }
}

/// What clearing a span does to the bytes of memory: those of the span are zero
/// from then on, and no other byte changes. Wiping the span does this, and so
/// does advising it `MADV_DONTNEED`.
pub open spec fn cleared(before: Map<int, u8>, after: Map<int, u8>, span: Span) -> bool {
    &&& before.dom() == after.dom()
    &&& forall|a: int| #[trigger]
        after.dom().contains(a) ==> after[a] == (if span.covers(a) {
            0
        } else {
            before[a]
        })
}

/// What becomes of a block of fresh memory that the kernel has handed over:
/// the aligned window that is kept, the slack on either side that goes back,
/// and whether the window is advised for huge pages.
#[derive(Clone, Copy, Debug, PartialEq, Eq)]
pub struct Mapping {
    /// Start of the window.
    pub addr: usize,
    /// Slack before the window, to be unmapped.
    pub head: Option<Span>,
    /// Slack after the window, to be unmapped.
    pub tail: Option<Span>,
    /// Whether the window is to be advised `MADV_HUGEPAGE`.
    pub huge: bool,
}

/// The bytes to ask the kernel for, so that a window of `len` bytes aligned to
/// `align` is sure to fit: the kernel promises page alignment and no more.
pub open spec fn request_len(len: int, align: int) -> int {
    if align <= PAGE {
        len
    } else {
        len + align
    }
}

/// Where the window starts in a block that starts at `base`.
pub open spec fn window_start(base: int, align: int) -> int {
    if align <= PAGE {
        base
    } else {
        align_up(base, align)
    }
}

/// The span of `len` bytes at `addr`, if there is a byte in it.
pub open spec fn slack(addr: int, len: int) -> Option<Span> {
    if len > 0 {
        Some(Span { addr: addr as usize, len: len as usize })
    } else {
        None
    }
}

/// How a block that starts at `base` is cut into a window and its slack.
pub open spec fn carve(len: int, align: int, base: int) -> Mapping {
    let start = window_start(base, align);
    let end = base + request_len(len, align);
    Mapping {
        addr: start as usize,
        head: slack(base, start - base),
        tail: slack(start + len, end - (start + len)),
        huge: align >= HUGE_PAGE,
    }
}

/// The window lies in the block that the kernel handed over, and it is aligned
/// as asked, provided the kernel keeps its promise of page alignment.
pub proof fn law_window_is_aligned_and_inside(len: usize, align: usize, base: usize)
    requires
        is_pow2(align as int),
        base % PAGE == 0,
        base + request_len(len as int, align as int) <= usize::MAX,
    ensures
        ({
            let m = carve(len as int, align as int, base as int);
            &&& m.addr % align == 0
            &&& base <= m.addr
            &&& m.addr + len <= base + request_len(len as int, align as int)
        }),
{
    lemma_pow2_exponent(align);
    lemma_align_up(base as int, align as int);
    if align <= PAGE {
        lemma_page_is_pow2();
        lemma_pow2_divides(align, PAGE);
        lemma_mod_of_multiple(base as int, PAGE as int, align as int);
    }
}

/// The kernel is asked for no more than it takes: for exactly the bytes wanted, or
/// for one alignment more where that is larger than a page.
pub proof fn law_request_is_one_alignment_longer_at_most(len: int, align: int)
    requires
        len >= 0,
        align > 0,
    ensures
        align <= PAGE ==> request_len(len, align) == len,
        align > PAGE ==> request_len(len, align) - align == len,
        len <= request_len(len, align) <= len + align,
{
}

/// The window is the first that is aligned, nothing is given back where there is
/// no slack, and huge pages are advised exactly for windows that are aligned to
/// them.
pub proof fn law_window_is_the_first_aligned_one(len: usize, align: usize, base: usize, p: int)
    requires
        is_pow2(align as int),
        base % PAGE == 0,
        base + request_len(len as int, align as int) <= usize::MAX,
        base <= p,
        p % align as int == 0,
    ensures
        ({
            let m = carve(len as int, align as int, base as int);
            &&& m.addr <= p
            &&& m.head is None <==> m.addr == base
            &&& m.tail is None <==> m.addr + len == base + request_len(len as int, align as int)
            &&& m.huge <==> align >= HUGE_PAGE
        }),
{
    lemma_pow2_exponent(align);
    lemma_align_up(base as int, align as int);
    lemma_align_up_is_least(base as int, align as int, p);
}

/// The slack and the window tile the block: each of its bytes is either kept,
/// or given back in one of the two spans, and no byte is both. Everything
/// given back starts and ends on a page boundary.
pub proof fn law_window_and_slack_tile_the_block(len: usize, align: usize, base: usize, a: int)
    requires
        is_pow2(align as int),
        base % PAGE == 0,
        len % PAGE == 0,
        base + request_len(len as int, align as int) <= usize::MAX,
    ensures
        ({
            let m = carve(len as int, align as int, base as int);
            let kept = m.addr <= a < m.addr + len;
            let before = m.head matches Some(s) && s.covers(a);
            let after = m.tail matches Some(s) && s.covers(a);
            &&& base <= a < base + request_len(len as int, align as int) <==> kept || before
                || after
            &&& !(kept && before) && !(kept && after) && !(before && after)
            &&& m.head matches Some(s) ==> s.addr % PAGE == 0 && s.len % PAGE == 0
            &&& m.tail matches Some(s) ==> s.addr % PAGE == 0 && s.len % PAGE == 0
        }),
{
    lemma_pow2_exponent(align);
    lemma_align_up(base as int, align as int);
    if align > PAGE {
        lemma_page_is_pow2();
        lemma_pow2_divides(PAGE, align);
        lemma_mod_of_multiple(align_up(base as int, align as int), align as int, PAGE as int);
    }
}

/// Whether `n` is a power of two.
pub fn is_power_of_two(n: usize) -> (r: bool)
    ensures
        r == is_pow2(n as int),
{
    proof {
        lemma_single_bit_is_pow2(n);
    }
    n != 0 && n & (n - 1) == 0
}

/// A number is a power of two exactly if clearing its lowest set bit leaves 0.
proof fn lemma_single_bit_is_pow2(n: usize)
    ensures
        n != 0 ==> (is_pow2(n as int) <==> n & ((n - 1) as usize) == 0),
        n == 0 ==> !is_pow2(n as int),
    decreases n,
{
    reveal_with_fuel(is_pow2, 2);
    if n == 1 {
        assert(1usize & 0usize == 0) by (bit_vector);
    } else if n > 1 {
        let m = (n - 1) as usize;
        let h = n / 2;
        let g = (h - 1) as usize;
        lemma_single_bit_is_pow2(h);
        assert(n & m == 0 <==> n % 2 == 0 && h & g == 0) by (bit_vector)
            requires
                n > 1,
                m == n - 1,
                h == n / 2,
                g == h - 1,
        ;
    }
}

/// The page size is a power of two.
pub proof fn lemma_page_is_pow2()
    ensures
        is_pow2(PAGE as int),
{
    vstd::arithmetic::power2::lemma2_to64();
    vstd::arithmetic::power2::lemma_pow2(12);
    vstd::arithmetic::power2::is_pow2_equiv(PAGE as int);
}

/// The smaller of two powers of two divides the larger.
pub proof fn lemma_pow2_divides(small: usize, large: usize)
    requires
        is_pow2(small as int),
        is_pow2(large as int),
        small <= large,
    ensures
        small > 0,
        large % small == 0,
{
    let j = lemma_pow2_exponent(small);
    let k = lemma_pow2_exponent(large);
    if k < j {
        vstd::arithmetic::power2::lemma_pow2_strictly_increases(k, j);
    }
    vstd::arithmetic::power2::lemma_pow2_adds((k - j) as nat, j);
    vstd::arithmetic::div_mod::lemma_mod_multiples_basic(pow2((k - j) as nat) as int, small as int);
}

/// A multiple of a multiple of `c` is a multiple of `c`.
pub proof fn lemma_mod_of_multiple(x: int, b: int, c: int)
    requires
        b > 0,
        c > 0,
        x % b == 0,
        b % c == 0,
    ensures
        x % c == 0,
{
    vstd::arithmetic::div_mod::lemma_fundamental_div_mod(x, b);
    vstd::arithmetic::div_mod::lemma_fundamental_div_mod(b, c);
    let q = b / c;
    let p = x / b;
    assert(x == (q * p) * c) by (nonlinear_arith)
        requires
            x == b * p,
            b == c * q,
    ;
    vstd::arithmetic::div_mod::lemma_mod_multiples_basic(q * p, c);
}

/// The number of bytes to ask the kernel for on behalf of [`map`].
pub fn map_request(len: usize, align: usize) -> (r: usize)
    requires
        align > PAGE ==> len + align <= usize::MAX,
    ensures
        r == request_len(len as int, align as int),
{
    if align <= PAGE {
        len
    } else {
        len + align
    }
}

/// Settle a mapping of `len` bytes aligned to `align`, given what the kernel
/// returned for a request of [`map_request`] bytes: the start of the block, or
/// nothing if it had none.
///
/// For `align <= PAGE` the block is used as it is. For larger alignment it was
/// asked for one alignment too long: an aligned window is carved out of it and
/// the slack is given back. A window aligned to a huge page is to be advised
/// `MADV_HUGEPAGE`.
pub fn map(len: usize, align: usize, base: Option<usize>) -> (r: Option<Mapping>)
    requires
        is_pow2(align as int),
        len % PAGE == 0,
        base matches Some(b) ==> b + request_len(len as int, align as int) <= usize::MAX,
    ensures
        r == (match base {
            Some(b) => Some(carve(len as int, align as int, b as int)),
            None => None,
        }),
{
    match base {
        None => None,
        Some(b) => {
            if align <= PAGE {
                Some(Mapping { addr: b, head: None, tail: None, huge: align >= HUGE_PAGE })
            } else {
                proof {
                    lemma_align_up(b as int, align as int);
                }
                let over: usize = len + align;
                let start: usize = round_up(b, align);
                let head: usize = start - b;
                let tail: usize = over - head - len;
                Some(
                    Mapping {
                        addr: start,
                        head: if head > 0 {
                            Some(Span { addr: b, len: head })
                        } else {
                            None
                        },
                        tail: if tail > 0 {
                            Some(Span { addr: start + len, len: tail })
                        } else {
                            None
                        },
                        huge: align >= HUGE_PAGE,
                    },
                )
            }
        },
    }
}

} // verus!
