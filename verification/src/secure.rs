//! A hardened buffer for secret prover inputs (witnesses).
//!
//! [`SecretBuf`] owns a private mapping that is:
//!
//! - **locked into RAM**, so the secret is never paged to swap;
//! - **fenced by guard pages** on both sides, so an off-by-one read or write
//!   into neighbouring data faults instead of silently leaking or corrupting;
//! - **wiped** before it is given back.
//!
//! It does not protect copies made elsewhere: a field element read into a local
//! variable lives in registers and on the stack, beyond this buffer's reach.

use vstd::prelude::*;

use crate::config::PAGE;
use crate::error::MapFailed;
use crate::sys::{align_up, lemma_page_is_pow2, round_up, Span};

verus! {

/// Bytes of the pages that hold a secret of `len` bytes: at least one page.
pub open spec fn data_len(len: int) -> int {
    align_up(
        if len >= 1 {
            len
        } else {
            1
        },
        PAGE as int,
    )
}

/// Bytes of the whole mapping: the data pages between two guard pages.
pub open spec fn secret_mapping_len(len: int) -> int {
    PAGE + data_len(len) + PAGE
}

/// A secret for which the whole mapping fits in the address space.
pub open spec fn fits(len: int) -> bool {
    len + 3 * PAGE - 1 <= usize::MAX
}

/// How the mapping of a secret buffer is divided up.
#[derive(Clone, Copy, Debug, PartialEq, Eq, Structural)]
pub struct SecretLayout {
    /// The leading guard page, to be made inaccessible.
    pub front: Span,
    /// The data pages, to be locked into RAM.
    pub data: Span,
    /// The trailing guard page, to be made inaccessible.
    pub rear: Span,
}

/// The layout of a mapping at `base` for a secret of `len` bytes.
pub open spec fn layout_at(base: int, len: int) -> SecretLayout {
    SecretLayout {
        front: Span { addr: base as usize, len: PAGE },
        data: Span { addr: (base + PAGE) as usize, len: data_len(len) as usize },
        rear: Span { addr: (base + PAGE + data_len(len)) as usize, len: PAGE },
    }
}

/// The memory that the kernel has handed over for a secret buffer.
pub struct SecretPages<'a> {
    /// Start of the whole mapping, including the leading guard page.
    pub base: usize,
    /// The data pages.
    pub pages: &'a mut [u8],
    /// Whether the leading guard page is in place.
    pub front_ok: bool,
    /// Whether the trailing guard page is in place.
    pub rear_ok: bool,
    /// Whether the data pages are locked into RAM.
    pub locked: bool,
}

/// A page-aligned, swap-locked, guard-fenced byte buffer.
pub struct SecretBuf<'a> {
    /// Start of the whole mapping, including the leading guard page.
    base: usize,
    /// Usable length requested by the caller.
    len: usize,
    /// Data pages (the length rounded up to a page).
    pages: &'a mut [u8],
    /// Whether the data pages are currently locked into RAM.
    locked: bool,
}

/// What is left to do when a secret buffer is dropped.
#[derive(Clone, Copy, Debug, PartialEq, Eq)]
pub struct Retirement {
    /// The data pages, to be wiped in a way that the compiler may not elide:
    /// nothing reads them any more.
    pub wipe: Span,
    /// The lock to release, if one is held.
    pub unlock: Option<Span>,
    /// The mapping to give back.
    pub unmap: Span,
}

impl<'a> SecretBuf<'a> {
    /// Start of the whole mapping.
    pub closed spec fn base(&self) -> int {
        self.base as int
    }

    /// The bytes of the data pages.
    pub closed spec fn pages(&self) -> Seq<u8> {
        self.pages@
    }

    /// The length of the secret.
    pub closed spec fn secret_len(&self) -> int {
        self.len as int
    }

    /// Whether the data pages are locked into RAM.
    pub closed spec fn locked(&self) -> bool {
        self.locked
    }

    /// The data pages are those of a secret of this length.
    pub open spec fn wf(&self) -> bool {
        &&& 0 <= self.base()
        &&& 0 <= self.secret_len() <= self.pages().len()
        &&& self.pages().len() == data_len(self.secret_len())
        &&& self.base() + secret_mapping_len(self.secret_len()) <= usize::MAX
    }

    /// The secret.
    pub open spec fn secret(&self) -> Seq<u8> {
        self.pages().take(self.secret_len())
    }

    /// Bytes to map for a secret of `len` bytes.
    pub fn mapping_len(len: usize) -> (r: usize)
        requires
            fits(len as int),
        ensures
            r == secret_mapping_len(len as int),
            r % PAGE == 0,
            len <= data_len(len as int),
    {
        proof {
            lemma_page_is_pow2();
        }
        let data_pages: usize = round_up(if len >= 1 { len } else { 1 }, PAGE);
        PAGE + data_pages + PAGE
    }

    /// Divide up the mapping of [`mapping_len`](Self::mapping_len) bytes at
    /// `base`.
    pub fn layout(base: usize, len: usize) -> (r: SecretLayout)
        requires
            fits(len as int),
            base + secret_mapping_len(len as int) <= usize::MAX,
        ensures
            r == layout_at(base as int, len as int),
    {
        let data_pages: usize = SecretBuf::mapping_len(len) - 2 * PAGE;
        let data: usize = base + PAGE;
        let rear: usize = data + data_pages;
        SecretLayout {
            front: Span { addr: base, len: PAGE },
            data: Span { addr: data, len: data_pages },
            rear: Span { addr: rear, len: PAGE },
        }
    }

    /// Set up a secret buffer of `len` bytes in the memory that the kernel
    /// handed over, if it had any, and if it has put a guard page on either side
    /// of the data. Memory that is not fenced on both sides is no use: it is an
    /// error, and the mapping is to be given back.
    ///
    /// Locking can fail without privileges or against `RLIMIT_MEMLOCK`, and that
    /// is reported by [`is_locked`](Self::is_locked) rather than as an error,
    /// since the buffer is still usable and still wiped on drop.
    pub fn new(len: usize, mapped: Option<SecretPages<'a>>) -> (r: Result<Self, MapFailed>)
        requires
            fits(len as int),
            mapped matches Some(m) ==> {
                &&& m.pages@.len() == data_len(len as int)
                &&& m.base + secret_mapping_len(len as int) <= usize::MAX
            },
        ensures
            match mapped {
                Some(m) if m.front_ok && m.rear_ok => r matches Ok(buf) && {
                    &&& buf.wf()
                    &&& buf.base() == m.base
                    &&& buf.secret_len() == len
                    &&& buf.pages() == m.pages@
                    &&& buf.locked() == m.locked
                },
                _ => r matches Err(e) && e.bytes == secret_mapping_len(len as int),
            },
    {
        let total: usize = SecretBuf::mapping_len(len);
        match mapped {
            Some(m) => {
                if m.front_ok && m.rear_ok {
                    Ok(SecretBuf { base: m.base, len, pages: m.pages, locked: m.locked })
                } else {
                    Err(MapFailed { bytes: total })
                }
            },
            None => Err(MapFailed { bytes: total }),
        }
    }

    /// Whether the secret pages are locked into RAM.
    pub fn is_locked(&self) -> (r: bool)
        ensures
            r == self.locked(),
    {
        self.locked
    }

    /// The secret as a byte slice.
    pub fn as_slice(&self) -> (r: &[u8])
        requires
            self.wf(),
        ensures
            r@ == self.secret(),
    {
        let (secret, _rest) = self.pages.split_at(self.len);
        secret
    }

    /// The secret as a mutable byte slice.
    pub fn as_mut_slice(&mut self) -> (r: &mut [u8])
        requires
            old(self).wf(),
        ensures
            r@ == old(self).secret(),
            final(r)@.len() == r@.len() ==> final(self).wf() && final(self).secret() == final(r)@,
            final(self).pages() == final(r)@ + old(self).pages().skip(old(self).secret_len()),
            final(self).base() == old(self).base(),
            final(self).secret_len() == old(self).secret_len(),
            final(self).locked() == old(self).locked(),
    {
        let (secret, _rest) = self.pages.split_at_mut(self.len);
        secret
    }

    /// The data pages, of which the secret is the front part.
    pub fn as_mut_pages(&mut self) -> (r: &mut [u8])
        requires
            old(self).wf(),
        ensures
            r@ == old(self).pages(),
            final(r)@.len() == r@.len() ==> final(self).wf(),
            final(self).pages() == final(r)@,
            final(self).base() == old(self).base(),
            final(self).secret_len() == old(self).secret_len(),
            final(self).locked() == old(self).locked(),
    {
        &mut *self.pages
    }

    /// Wipe the secret now, before the buffer is dropped. Every byte of the data
    /// pages is cleared, also those beyond the length of the secret.
    pub fn wipe(&mut self)
        requires
            old(self).wf(),
        ensures
            final(self).wf(),
            final(self).pages() == Seq::new(old(self).pages().len(), |i: int| 0u8),
            final(self).secret() == Seq::new(old(self).secret_len() as nat, |i: int| 0u8),
            final(self).base() == old(self).base(),
            final(self).secret_len() == old(self).secret_len(),
            final(self).locked() == old(self).locked(),
    {
        let n: usize = self.pages.len();
        let mut i: usize = 0;
        while i < n
            invariant
                i <= n,
                n == self.pages@.len(),
                n == old(self).pages().len(),
                self.base == old(self).base(),
                self.len == old(self).secret_len(),
                self.locked == old(self).locked(),
                forall|j: int| 0 <= j < i ==> self.pages@[j] == 0,
            decreases n - i,
        {
            self.pages[i] = 0;
            i = i + 1;
        }
        assert(self.pages() =~= Seq::new(old(self).pages().len(), |i: int| 0u8));
        assert(self.secret() =~= Seq::new(old(self).secret_len() as nat, |i: int| 0u8));
    }

    /// Wipe the buffer and tell what is left to do: make sure of the wipe, release
    /// the lock, if one is held, and give the mapping back.
    pub fn retire(&mut self) -> (r: Retirement)
        requires
            old(self).wf(),
        ensures
            final(self).wf(),
            final(self).pages() == Seq::new(old(self).pages().len(), |i: int| 0u8),
            final(self).base() == old(self).base(),
            final(self).secret_len() == old(self).secret_len(),
            final(self).locked() == old(self).locked(),
            ({
                let layout = layout_at(old(self).base(), old(self).secret_len());
                &&& r.wipe == layout.data
                &&& r.unlock == (if old(self).locked() {
                    Some(layout.data)
                } else {
                    None
                })
                &&& r.unmap == (Span {
                    addr: old(self).base() as usize,
                    len: secret_mapping_len(old(self).secret_len()) as usize,
                })
            }),
    {
        self.wipe();
        let data_pages: usize = self.pages.len();
        let data = Span { addr: self.base + PAGE, len: data_pages };
        Retirement {
            wipe: data,
            unlock: if self.locked {
                Some(data)
            } else {
                None
            },
            unmap: Span { addr: self.base, len: PAGE + data_pages + PAGE },
        }
    }
}

/// A secret starts zeroed, as the pages that it is set up in do: the kernel hands
/// over fresh memory filled with zeros.
pub proof fn law_secret_in_zero_pages_is_zero(buf: SecretBuf)
    requires
        buf.wf(),
        forall|i: int| 0 <= i < buf.pages().len() ==> #[trigger] buf.pages()[i] == 0,
    ensures
        buf.secret().len() == buf.secret_len(),
        forall|i: int| 0 <= i < buf.secret_len() ==> #[trigger] buf.secret()[i] == 0,
{
}

/// The data pages are the fewest that hold the secret: whole pages, at least one,
/// that cover it and would not without the last one. The mapping is those and two
/// guard pages, and it fits in the address space for any size that a secret in
/// memory can have.
pub proof fn law_secret_takes_the_fewest_pages(len: int)
    requires
        len >= 0,
    ensures
        data_len(len) % PAGE as int == 0,
        data_len(len) > 0,
        len <= data_len(len),
        len > 0 ==> data_len(len) - PAGE < len,
        len == 0 ==> data_len(len) == PAGE,
        secret_mapping_len(len) - data_len(len) == 2 * PAGE,
        len <= isize::MAX ==> fits(len),
        fits(len) ==> secret_mapping_len(len) <= usize::MAX,
{
    crate::sys::lemma_align_up(
        if len >= 1 {
            len
        } else {
            1
        },
        PAGE as int,
    );
}

/// The secret is the front part of its pages, byte for byte.
pub proof fn law_secret_is_the_front_of_its_pages(buf: SecretBuf, i: int)
    requires
        buf.wf(),
        0 <= i < buf.secret_len(),
    ensures
        buf.secret().len() == buf.secret_len(),
        buf.secret()[i] == buf.pages()[i],
{
}

/// The guard pages fence the data pages: the one ends where the data starts, the
/// other starts where it ends, and the three make up the whole mapping. On a
/// page-aligned mapping each starts on a page boundary, and the secret lies in
/// the data pages.
pub proof fn law_guards_fence_the_secret(base: usize, len: usize)
    requires
        fits(len as int),
        base + secret_mapping_len(len as int) <= usize::MAX,
    ensures
        ({
            let l = layout_at(base as int, len as int);
            &&& l.front.addr == base && l.front.len == PAGE
            &&& l.front.end() == l.data.addr
            &&& l.data.end() == l.rear.addr
            &&& l.rear.len == PAGE
            &&& l.rear.end() == base + secret_mapping_len(len as int)
            &&& l.data.len >= len && l.data.len > 0 && l.data.len % PAGE == 0
            &&& base % PAGE == 0 ==> l.data.addr % PAGE == 0 && l.rear.addr % PAGE == 0
        }),
{
    crate::sys::lemma_align_up(
        if len >= 1 {
            len as int
        } else {
            1
        },
        PAGE as int,
    );
}

} // verus!
