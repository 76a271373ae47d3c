//! Tunable parameters, and the values that depend on the machine.
//!
//! The constants describe the shape of the large-region cache. The shard count
//! and the cache ceiling depend on the machine: here they are computed from what
//! the machine reports.

use vstd::arithmetic::power2::{is_pow2, pow2};
use vstd::prelude::*;

verus! {

/// Base page size. Sizes are only ever rounded *up* to it, so a larger real
/// page never breaks correctness.
pub const PAGE: usize = 4096;

/// Transparent-huge-page size (2 MiB).
pub const HUGE_PAGE: usize = 2 * 1024 * 1024;

/// Requests of at least this size take the cached large-region path; anything
/// smaller is forwarded to the system allocator. 64 KiB sits below glibc's
/// mmap threshold, so medium buffers that libc would bounce off
/// `mmap`/`munmap` land in the resident cache instead.
pub const LARGE_THRESHOLD: usize = 64 * 1024;

/// Regions larger than this are mapped and unmapped on demand rather than
/// retained.
pub const CACHE_MAX_REGION: usize = 256 * 1024 * 1024;

/// Number of size classes that a shard keeps a list for. Four classes per power
/// of two from 2^16 up to 2^28 is 52; rounded up for headroom so that the index
/// never escapes the lists.
pub const MAX_CLASSES: usize = 56;

/// Upper bound on cache shards.
pub const MAX_SHARDS: usize = 64;

/// Environment override for the cache ceiling, in bytes.
pub const CACHE_BYTES_ENV: &'static str = "ZK_ALLOC_CACHE_BYTES";

/// Default cache ceiling when physical RAM is unknown, and the hard cap on the
/// fraction-of-RAM default. Kept deliberately conservative: a real prover
/// allocates many different sizes across phases, and an over-eager cache retains
/// all of them, inflating RSS for no speed benefit on compute-bound proofs. Raise
/// it with [`CACHE_BYTES_ENV`] when proving is genuinely allocation-bound and the
/// memory is available.
pub const DEFAULT_CEILING_CAP: usize = 1024 * 1024 * 1024;

/// Whether `shards` is the shard count for `cpus` CPUs: the least power of two
/// that is at least `cpus`, capped at [`MAX_SHARDS`].
pub open spec fn is_shard_count(shards: int, cpus: int) -> bool {
    &&& is_pow2(shards)
    &&& 1 <= shards <= MAX_SHARDS
    &&& shards >= cpus || shards == MAX_SHARDS
    &&& shards == 1 || shards / 2 < cpus
}

/// How many shards to spread the cache across, given the number of CPUs that
/// are online as the system reports it (less than 1 if it cannot tell): the CPU
/// count rounded up to a power of two, so that a thread can pick its shard with
/// a single mask.
pub fn num_shards(cpus: i64) -> (r: usize)
    ensures
        is_shard_count(r as int, cpus as int),
{
    let mut n: usize = 1;
    proof {
        reveal(is_pow2);
    }
    while n < MAX_SHARDS && (n as i64) < cpus
        invariant
            is_pow2(n as int),
            1 <= n <= MAX_SHARDS,
            n == 1 || n / 2 < cpus,
        decreases MAX_SHARDS - n,
    {
        proof {
            lemma_double_is_pow2(n as int);
            assert(n <= 32) by {
                lemma_pow2_below_64(n as int);
            }
        }
        n = n * 2;
    }
    n
}

/// Twice a power of two is a power of two.
proof fn lemma_double_is_pow2(n: int)
    requires
        is_pow2(n),
    ensures
        is_pow2(2 * n),
{
    reveal_with_fuel(is_pow2, 2);
    assert((2 * n) / 2 == n && (2 * n) % 2 == 0);
}

/// The powers of two below 64 go up to 32.
proof fn lemma_pow2_below_64(n: int)
    requires
        is_pow2(n),
        n < 64,
    ensures
        n <= 32,
{
    reveal_with_fuel(is_pow2, 8);
}

/// The shard count is the one count that fits the number of CPUs.
pub proof fn law_shard_count_is_unique(a: int, b: int, cpus: int)
    requires
        is_shard_count(a, cpus),
        is_shard_count(b, cpus),
    ensures
        a == b,
{
    if a < b {
        lemma_pow2_gap(a as usize, b as usize);
    } else if b < a {
        lemma_pow2_gap(b as usize, a as usize);
    }
}

/// There is a shard for every CPU, up to [`MAX_SHARDS`], and fewer than twice as
/// many shards as CPUs; a machine that cannot tell its CPUs gets one shard.
pub proof fn law_shard_count_follows_the_cpus(shards: int, cpus: int)
    requires
        is_shard_count(shards, cpus),
    ensures
        is_pow2(shards),
        cpus <= 1 ==> shards == 1,
        1 <= cpus <= MAX_SHARDS ==> cpus <= shards < 2 * cpus,
        cpus >= MAX_SHARDS ==> shards == MAX_SHARDS,
{
}

/// The shape of the cache: pages of 4 KiB and huge pages of 2 MiB, requests that
/// count as large from 64 KiB on, regions that are retained up to 256 MiB, lists
/// for four classes per power of two between those two with room to spare, up to
/// 64 shards, and a default ceiling of at most 1 GiB.
pub proof fn law_parameters()
    ensures
        PAGE == pow2(12),
        HUGE_PAGE == pow2(21),
        LARGE_THRESHOLD == pow2(16),
        CACHE_MAX_REGION == pow2(28),
        MAX_CLASSES == 4 * (28 - 16 + 2),
        MAX_SHARDS == pow2(6),
        DEFAULT_CEILING_CAP == pow2(30),
{
    vstd::arithmetic::power2::lemma2_to64();
}

/// A power of two is at most half of any larger one.
proof fn lemma_pow2_gap(a: usize, b: usize)
    requires
        is_pow2(a as int),
        is_pow2(b as int),
        a < b,
    ensures
        2 * a <= b,
        a <= b / 2,
{
    let j = crate::sys::lemma_pow2_exponent(a);
    let k = crate::sys::lemma_pow2_exponent(b);
    if k <= j {
        if k < j {
            vstd::arithmetic::power2::lemma_pow2_strictly_increases(k, j);
        }
    }
    vstd::arithmetic::power2::lemma_pow2_unfold(j + 1);
    if j + 1 < k {
        vstd::arithmetic::power2::lemma_pow2_strictly_increases(j + 1, k);
    }
}

/// A character with the Unicode property White_Space.
pub open spec fn is_white_space(c: char) -> bool {
    ||| '\u{9}' <= c <= '\u{d}'
    ||| c == '\u{20}'
    ||| c == '\u{85}'
    ||| c == '\u{a0}'
    ||| c == '\u{1680}'
    ||| '\u{2000}' <= c <= '\u{200a}'
    ||| '\u{2028}' <= c <= '\u{2029}'
    ||| c == '\u{202f}'
    ||| c == '\u{205f}'
    ||| c == '\u{3000}'
}

/// `s` without the white space in front.
pub open spec fn trim_start(s: Seq<char>) -> Seq<char>
    decreases s.len(),
{
    if s.len() > 0 && is_white_space(s[0]) {
        trim_start(s.drop_first())
    } else {
        s
    }
}

/// `s` without the white space at the end.
pub open spec fn trim_end(s: Seq<char>) -> Seq<char>
    decreases s.len(),
{
    if s.len() > 0 && is_white_space(s.last()) {
        trim_end(s.drop_last())
    } else {
        s
    }
}

/// The value that a string of decimal digits stands for.
pub open spec fn digits_value(s: Seq<char>) -> int
    decreases s.len(),
{
    if s.len() == 0 {
        0
    } else {
        digits_value(s.drop_last()) * 10 + (s.last() as int - '0' as int)
    }
}

/// Whether every character is a decimal digit.
pub open spec fn all_digits(s: Seq<char>) -> bool {
    forall|i: int| 0 <= i < s.len() ==> '0' <= #[trigger] s[i] <= '9'
}

/// `s` without a plus sign in front.
pub open spec fn without_plus(s: Seq<char>) -> Seq<char> {
    if s.len() > 0 && s[0] == '+' {
        s.drop_first()
    } else {
        s
    }
}

/// The number that a string spells: decimal digits, at least one of them, with
/// an optional `+` in front, for a value that fits in a `usize`.
pub open spec fn spelled(s: Seq<char>) -> Option<int> {
    let digits = without_plus(s);
    if digits.len() > 0 && all_digits(digits) && digits_value(digits) <= usize::MAX {
        Some(digits_value(digits))
    } else {
        None
    }
}

/// The cache ceiling in the absence of an override: an eighth of physical RAM,
/// in whole pages, up to [`DEFAULT_CEILING_CAP`], or that cap if the amount of RAM
/// is unknown.
pub open spec fn default_ceiling(pages: int, page: int) -> int {
    if pages > 0 && page > 0 {
        let eighth = pages / 8 * page;
        if eighth <= DEFAULT_CEILING_CAP {
            eighth
        } else {
            DEFAULT_CEILING_CAP as int
        }
    } else {
        DEFAULT_CEILING_CAP as int
    }
}

/// The bytes that the override asks for, if it is set and spells a number once
/// the white space around it is gone.
pub open spec fn override_bytes(setting: Option<&str>) -> Option<int> {
    match setting {
        Some(s) => spelled(trim_end(trim_start(s@))),
        None => None,
    }
}

/// Total bytes the large-region cache may hold resident before freed regions
/// are returned to the kernel instead of cached.
///
/// `setting` is the value of the environment variable [`CACHE_BYTES_ENV`], if it
/// is set to a string; `pages` and `page` are the number of physical pages and
/// their size as the system reports them (less than 1 if it cannot tell). The
/// ceiling is what the override says if that is a number of bytes, and else
/// `min(RAM/8, 1 GiB)`, which is 1 GiB if the amount of RAM is unknown.
pub fn cache_ceiling(setting: Option<&str>, pages: i64, page: i64) -> (r: usize)
    ensures
        r == (match override_bytes(setting) {
            Some(bytes) => bytes,
            None => default_ceiling(pages as int, page as int),
        }),
{
    if let Some(s) = setting {
        if let Some(bytes) = parse_bytes(s) {
            return bytes;
        }
    }
    if pages > 0 && page > 0 {
        let eighth: Option<u64> = (pages as u64 / 8).checked_mul(page as u64);
        match eighth {
            Some(bytes) if bytes <= DEFAULT_CEILING_CAP as u64 => bytes as usize,
            _ => DEFAULT_CEILING_CAP,
        }
    } else {
        DEFAULT_CEILING_CAP
    }
}

/// The number that `s` spells once the white space around it is gone.
fn parse_bytes(s: &str) -> (r: Option<usize>)
    ensures
        r matches Some(v) ==> spelled(trim_end(trim_start(s@))) == Some(v as int),
        r is None ==> spelled(trim_end(trim_start(s@))) is None,
{
    let n: usize = s.unicode_len();
    let mut lo: usize = 0;
    assert(s@.skip(0) =~= s@);
    while lo < n && white_space(s.get_char(lo))
        invariant
            n == s@.len(),
            lo <= n,
            trim_start(s@.skip(lo as int)) == trim_start(s@),
        decreases n - lo,
    {
        assert(s@.skip(lo as int).drop_first() =~= s@.skip(lo + 1));
        lo = lo + 1;
    }
    assert(trim_start(s@) == s@.skip(lo as int));
    let mut hi: usize = n;
    assert(s@.subrange(lo as int, hi as int) =~= s@.skip(lo as int));
    while lo < hi && white_space(s.get_char(hi - 1))
        invariant
            n == s@.len(),
            lo <= hi <= n,
            trim_end(s@.subrange(lo as int, hi as int)) == trim_end(s@.skip(lo as int)),
        decreases hi,
    {
        assert(s@.subrange(lo as int, hi as int).drop_last() =~= s@.subrange(
            lo as int,
            hi - 1,
        ));
        hi = hi - 1;
    }
    let ghost word = s@.subrange(lo as int, hi as int);
    assert(trim_end(trim_start(s@)) == word);
    let mut i: usize = lo;
    if lo < hi && s.get_char(lo) == '+' {
        i = lo + 1;
    }
    if i == hi {
        return None;
    }
    let start: usize = i;
    let ghost digits = s@.subrange(start as int, hi as int);
    proof {
        if start == lo {
            assert(digits =~= word);
        } else {
            assert(digits =~= word.drop_first());
        }
    }
    let mut value: usize = 0;
    while i < hi
        invariant
            n == s@.len(),
            start <= i <= hi <= n,
            digits == s@.subrange(start as int, hi as int),
            digits.len() > 0,
            digits == without_plus(word),
            trim_end(trim_start(s@)) == word,
            value == digits_value(digits.take(i - start)),
            all_digits(digits.take(i - start)),
        decreases hi - i,
    {
        let c: char = s.get_char(i);
        assert(c == digits[i - start]);
        if !('0' <= c && c <= '9') {
            return None;
        }
        let digit: usize = (c as u32 - '0' as u32) as usize;
        assert(digits.take(i - start + 1).drop_last() =~= digits.take(i - start));
        let next: Option<usize> = match value.checked_mul(10) {
            Some(tens) => tens.checked_add(digit),
            None => None,
        };
        match next {
            Some(v) => {
                value = v;
            },
            None => {
                proof {
                    if all_digits(digits) {
                        lemma_digits_value_grows(digits, i - start + 1);
                    }
                }
                return None;
            },
        }
        i = i + 1;
    }
    assert(digits.take(hi - start) =~= digits);
    Some(value)
}

/// More digits never stand for a smaller value.
proof fn lemma_digits_value_grows(s: Seq<char>, i: int)
    requires
        0 <= i <= s.len(),
        all_digits(s),
    ensures
        0 <= digits_value(s.take(i)) <= digits_value(s),
    decreases s.len(),
{
    if i == s.len() {
        assert(s.take(i) =~= s);
        if s.len() > 0 {
            lemma_digits_value_grows(s.drop_last(), i - 1);
            assert('0' <= s[s.len() - 1] <= '9');
        }
    } else {
        lemma_digits_value_grows(s.drop_last(), i);
        assert(s.drop_last().take(i) =~= s.take(i));
        assert('0' <= s[s.len() - 1] <= '9');
    }
}

/// Without an override the ceiling never exceeds its cap, nor an eighth of
/// physical RAM where that is known. Below the cap it is a whole number of pages,
/// and as many as an eighth of RAM has room for. Where RAM is unknown, the ceiling
/// is the cap.
pub proof fn law_default_ceiling_is_capped(pages: int, page: int)
    ensures
        0 <= default_ceiling(pages, page) <= DEFAULT_CEILING_CAP,
        pages > 0 && page > 0 ==> default_ceiling(pages, page) * 8 <= pages * page,
        pages > 0 && page > 0 && default_ceiling(pages, page) < DEFAULT_CEILING_CAP ==> {
            &&& default_ceiling(pages, page) % page == 0
            &&& pages * page < (default_ceiling(pages, page) + page) * 8
        },
        !(pages > 0 && page > 0) ==> default_ceiling(pages, page) == DEFAULT_CEILING_CAP,
{
    if pages > 0 && page > 0 {
        vstd::arithmetic::div_mod::lemma_mod_multiples_basic(pages / 8, page);
        assert(pages * page < (pages / 8 * page + page) * 8) by (nonlinear_arith)
            requires
                pages > 0,
                page > 0,
        ;
        assert(0 <= pages / 8 * page && pages / 8 * page * 8 <= pages * page) by (nonlinear_arith)
            requires
                pages > 0,
                page > 0,
        ;
    }
}

/// Whether every character is white space.
pub open spec fn blank(s: Seq<char>) -> bool {
    forall|i: int| 0 <= i < s.len() ==> is_white_space(#[trigger] s[i])
}

/// White space in front of something else is trimmed.
proof fn lemma_trim_start_skips(left: Seq<char>, rest: Seq<char>)
    requires
        blank(left),
        rest.len() > 0 ==> !is_white_space(rest[0]),
    ensures
        trim_start(left + rest) == rest,
    decreases left.len(),
{
    if left.len() == 0 {
        assert(left + rest =~= rest);
    } else {
        assert((left + rest)[0] == left[0]);
        assert((left + rest).drop_first() =~= left.drop_first() + rest);
        lemma_trim_start_skips(left.drop_first(), rest);
    }
}

/// White space behind something else is trimmed.
proof fn lemma_trim_end_skips(rest: Seq<char>, right: Seq<char>)
    requires
        blank(right),
        rest.len() > 0 ==> !is_white_space(rest.last()),
    ensures
        trim_end(rest + right) == rest,
    decreases right.len(),
{
    if right.len() == 0 {
        assert(rest + right =~= rest);
    } else {
        assert((rest + right).last() == right[right.len() - 1]);
        assert((rest + right).drop_last() =~= rest + right.drop_last());
        lemma_trim_end_skips(rest, right.drop_last());
    }
}

/// Nothing but white space is trimmed in front.
proof fn lemma_trim_start_splits(s: Seq<char>) -> (left: Seq<char>)
    ensures
        s == left + trim_start(s),
        blank(left),
    decreases s.len(),
{
    if s.len() > 0 && is_white_space(s[0]) {
        let rest = lemma_trim_start_splits(s.drop_first());
        let left = seq![s[0]] + rest;
        let t = trim_start(s);
        assert(s =~= seq![s[0]] + s.drop_first());
        assert(left + t =~= seq![s[0]] + (rest + t));
        left
    } else {
        assert(s =~= Seq::<char>::empty() + s);
        Seq::empty()
    }
}

/// Nothing but white space is trimmed behind.
proof fn lemma_trim_end_splits(s: Seq<char>) -> (right: Seq<char>)
    ensures
        s == trim_end(s) + right,
        blank(right),
    decreases s.len(),
{
    if s.len() > 0 && is_white_space(s.last()) {
        let rest = lemma_trim_end_splits(s.drop_last());
        let right = rest.push(s.last());
        let t = trim_end(s);
        assert(s =~= s.drop_last().push(s.last()));
        assert(t + right =~= (t + rest).push(s.last()));
        right
    } else {
        assert(s =~= s + Seq::<char>::empty());
        Seq::empty()
    }
}

/// An override is what its digits say: with any white space around it, and with or
/// without a plus sign, a run of decimal digits is the number of bytes that it
/// spells, unless that does not fit in a `usize`.
pub proof fn law_override_is_the_number_it_spells(
    setting: &str,
    left: Seq<char>,
    plus: bool,
    digits: Seq<char>,
    right: Seq<char>,
)
    requires
        setting@ == left + (if plus {
            seq!['+']
        } else {
            Seq::<char>::empty()
        }) + digits + right,
        blank(left),
        blank(right),
        digits.len() > 0,
        forall|i: int| 0 <= i < digits.len() ==> '0' <= #[trigger] digits[i] <= '9',
    ensures
        override_bytes(Some(setting)) == (if digits_value(digits) <= usize::MAX {
            Some(digits_value(digits))
        } else {
            None
        }),
{
    let sign = if plus {
        seq!['+']
    } else {
        Seq::<char>::empty()
    };
    let word = sign + digits;
    assert(setting@ =~= left + (word + right));
    assert('0' <= digits[0] <= '9' && '0' <= digits[digits.len() - 1] <= '9');
    assert(word.last() == digits.last());
    assert(word[0] == if plus {
        '+'
    } else {
        digits[0]
    });
    lemma_trim_start_skips(left, word + right);
    lemma_trim_end_skips(word, right);
    assert(without_plus(word) =~= digits);
}

/// Nothing else is an override: one that counts is a run of decimal digits with
/// at most a plus sign in front, and white space around it. The parts of it are
/// returned: the white space in front, whether there is a plus sign, the digits,
/// and the white space behind.
pub proof fn law_only_a_number_is_an_override(setting: &str) -> (parts: (
    Seq<char>,
    bool,
    Seq<char>,
    Seq<char>,
))
    requires
        override_bytes(Some(setting)) is Some,
    ensures
        setting@ == parts.0 + (if parts.1 {
            seq!['+']
        } else {
            Seq::<char>::empty()
        }) + parts.2 + parts.3,
        blank(parts.0),
        blank(parts.3),
        parts.2.len() > 0,
        forall|i: int| 0 <= i < parts.2.len() ==> '0' <= #[trigger] parts.2[i] <= '9',
        override_bytes(Some(setting)) == Some(digits_value(parts.2)),
        digits_value(parts.2) <= usize::MAX,
{
    let left = lemma_trim_start_splits(setting@);
    let right = lemma_trim_end_splits(trim_start(setting@));
    let word = trim_end(trim_start(setting@));
    let plus = word.len() > 0 && word[0] == '+';
    let digits = without_plus(word);
    let sign = if plus {
        seq!['+']
    } else {
        Seq::<char>::empty()
    };
    assert(word =~= sign + digits);
    assert(setting@ =~= left + sign + digits + right);
    (left, plus, digits, right)
}

/// Without a setting there is no override.
pub proof fn law_no_setting_is_no_override(setting: Option<&str>)
    requires
        setting is None,
    ensures
        override_bytes(setting) is None,
{
}

/// White space is what Unicode says it is: in ASCII the space and the controls from
/// tab to carriage return, in Latin-1 the next-line control and the no-break space
/// as well, and beyond that the spaces of other scripts and widths and the line and
/// paragraph separators.
pub proof fn law_white_space_is_that_of_unicode(c: char)
    ensures
        (c as int) < 0x80 ==> (is_white_space(c) <==> c as int == 0x20 || 0x9 <= c as int <= 0xd),
        0x80 <= (c as int) < 0x100 ==> (is_white_space(c) <==> c as int == 0x85 || c as int
            == 0xa0),
        0x100 <= (c as int) ==> (is_white_space(c) <==> {
            ||| 0x2000 <= c as int <= 0x200a
            ||| 0x2028 <= c as int <= 0x2029
            ||| c as int == 0x1680
            ||| c as int == 0x202f
            ||| c as int == 0x205f
            ||| c as int == 0x3000
        }),
{
}

/// Decimal notation is positional: another digit behind makes the number ten times
/// as large, and adds the digit.
pub proof fn law_digits_are_positional(s: Seq<char>, d: int)
    requires
        0 <= d < 10,
    ensures
        digits_value(Seq::<char>::empty()) == 0,
        digits_value(s.push(('0' as int + d) as char)) == 10 * digits_value(s) + d,
{
    assert(s.push(('0' as int + d) as char).drop_last() =~= s);
}

/// Whether `c` is white space.
fn white_space(c: char) -> (r: bool)
    ensures
        r == is_white_space(c),
{
    ('\u{9}' <= c && c <= '\u{d}') || c == '\u{20}' || c == '\u{85}' || c == '\u{a0}' || c
        == '\u{1680}' || ('\u{2000}' <= c && c <= '\u{200a}') || ('\u{2028}' <= c && c
        <= '\u{2029}') || c == '\u{202f}' || c == '\u{205f}' || c == '\u{3000}'
}

} // verus!
