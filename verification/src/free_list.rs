//! Lists of regions that belong to the allocator.
//!
//! A [`FreeList`] is a stack of [`Span`]s, linked through one [`FreeNode`] per
//! region. The lists are intrusive: whoever pushes a region provides its node,
//! which can lie in the region itself, since that is free memory until the region
//! is popped. So the lists need no heap of their own. That matters because this
//! code runs *as* the global allocator and cannot call back into itself for
//! bookkeeping.

use vstd::prelude::*;

use crate::sys::Span;

verus! {

/// What links a region to the next one on its list.
pub struct FreeNode<'a> {
    region: Span,
    next: Option<&'a mut FreeNode<'a>>,
}

impl<'a> FreeNode<'a> {
    /// The region that the node stands for.
    pub closed spec fn region(self) -> Span {
        self.region
    }

    /// Whether another node comes after this one.
    pub closed spec fn linked(self) -> bool {
        self.next is Some
    }

    /// A node that is on no list, and stands for no region yet.
    pub fn new() -> (r: Self)
        ensures
            r.region() == (Span { addr: 0, len: 0 }),
            !r.linked(),
    {
        FreeNode { region: Span { addr: 0, len: 0 }, next: None }
    }
}

/// Whether a chain of nodes ends after `n` of them.
spec fn ends<'a>(head: Option<&'a mut FreeNode<'a>>, n: nat) -> bool
    decreases n,
{
    match head {
        Some(node) => n > 0 && ends(node.next, (n - 1) as nat),
        None => n == 0,
    }
}

/// The regions on a chain of `n` nodes, first to last.
spec fn chain<'a>(head: Option<&'a mut FreeNode<'a>>, n: nat) -> Seq<Span>
    decreases n,
{
    match head {
        Some(node) => if n > 0 {
            seq![node.region] + chain(node.next, (n - 1) as nat)
        } else {
            Seq::empty()
        },
        None => Seq::empty(),
    }
}

/// A stack of regions.
pub struct FreeList<'a> {
    head: Option<&'a mut FreeNode<'a>>,
    len: Ghost<nat>,
}

impl<'a> View for FreeList<'a> {
    type V = Seq<Span>;

    /// The regions, the one that was pushed last first.
    closed spec fn view(&self) -> Seq<Span> {
        chain(self.head, self.len@)
    }
}

/// A walk along a list, which stays as it is.
pub struct ListWalk<'s, 'a> {
    rest: &'s Option<&'a mut FreeNode<'a>>,
    len: Ghost<nat>,
}

impl<'s, 'a> View for ListWalk<'s, 'a> {
    type V = Seq<Span>;

    /// The regions that are still to come.
    closed spec fn view(&self) -> Seq<Span> {
        chain(*self.rest, self.len@)
    }
}

/// The bytes in all the spans.
pub open spec fn sum_len(spans: Seq<Span>) -> int
    decreases spans.len(),
{
    if spans.len() == 0 {
        0
    } else {
        spans[0].len + sum_len(spans.drop_first())
    }
}

/// What a count of `n` comes to in a counter as wide as `usize`.
pub open spec fn wrap(n: int) -> int {
    n % (usize::MAX + 1)
}

/// What a count of `n` comes to in a 64-bit counter.
pub open spec fn wrap64(n: int) -> int {
    n % (u64::MAX + 1)
}

/// Joining two sequences of spans adds their bytes.
pub proof fn lemma_sum_len_concat(a: Seq<Span>, b: Seq<Span>)
    ensures
        sum_len(a + b) == sum_len(a) + sum_len(b),
        sum_len(a) >= 0,
    decreases a.len(),
{
    if a.len() == 0 {
        assert(a + b =~= b);
    } else {
        assert((a + b).drop_first() =~= a.drop_first() + b);
        lemma_sum_len_concat(a.drop_first(), b);
    }
}

/// The bytes in one more span at the front.
pub proof fn lemma_sum_len_front(x: Span, s: Seq<Span>)
    ensures
        sum_len(seq![x] + s) == x.len + sum_len(s),
        sum_len(s) >= 0,
    decreases s.len(),
{
    assert((seq![x] + s).drop_first() =~= s);
    if s.len() > 0 {
        lemma_sum_len_front(s[0], s.drop_first());
        assert(seq![s[0]] + s.drop_first() =~= s);
    }
}

/// What the regions of a list come to is the bytes of each, added up, and a counter
/// shows the sum itself as long as it fits.
pub proof fn law_bytes_add_up(a: Seq<Span>, b: Seq<Span>, x: Span)
    ensures
        sum_len(Seq::<Span>::empty()) == 0,
        sum_len(seq![x]) == x.len,
        sum_len(a + b) == sum_len(a) + sum_len(b),
        0 <= sum_len(a) <= usize::MAX ==> wrap(sum_len(a)) == sum_len(a),
        a.len() <= u64::MAX ==> wrap64(a.len() as int) == a.len(),
{
    lemma_sum_len_concat(a, b);
    lemma_sum_len_front(x, Seq::empty());
    assert(seq![x] + Seq::empty() =~= seq![x]);
    if 0 <= sum_len(a) <= usize::MAX {
        vstd::arithmetic::div_mod::lemma_small_mod(sum_len(a) as nat, (usize::MAX + 1) as nat);
    }
    if a.len() <= u64::MAX {
        vstd::arithmetic::div_mod::lemma_small_mod(a.len(), (u64::MAX + 1) as nat);
    }
}

/// The bytes in one more span at the end.
pub proof fn lemma_sum_len_back(s: Seq<Span>, x: Span)
    ensures
        sum_len(s.push(x)) == sum_len(s) + x.len,
        sum_len(s) >= 0,
{
    lemma_sum_len_concat(s, seq![x]);
    lemma_sum_len_front(x, Seq::empty());
    assert(seq![x] + Seq::empty() =~= seq![x]);
    assert(s.push(x) =~= s + seq![x]);
}

/// Adding in a counter that wraps loses nothing that the wrapped total keeps.
pub proof fn lemma_wrap_add(n: int, acc: usize, x: usize)
    requires
        n >= 0,
        acc == wrap(n),
    ensures
        acc.wrapping_add(x) == wrap(n + x),
{
    let m = usize::MAX + 1;
    vstd::arithmetic::div_mod::lemma_add_mod_noop_right(x as int, n, m);
    assert(wrap(acc + x) == wrap(n + x));
    if acc + x < m {
        vstd::arithmetic::div_mod::lemma_small_mod((acc + x) as nat, m as nat);
    } else {
        vstd::arithmetic::div_mod::lemma_small_mod((acc + x - m) as nat, m as nat);
        vstd::arithmetic::div_mod::lemma_mod_add_multiples_vanish(acc + x - m, m);
    }
}

/// [`lemma_wrap_add`] for a count that has itself wrapped.
pub proof fn lemma_wrap_sum(n: int, acc: usize, k: int, x: usize)
    requires
        n >= 0,
        acc == wrap(n),
        x == wrap(k),
    ensures
        acc.wrapping_add(x) == wrap(n + k),
{
    lemma_wrap_add(n, acc, x);
    vstd::arithmetic::div_mod::lemma_add_mod_noop_right(n, k, usize::MAX + 1);
}

/// [`lemma_wrap_add`] for a 64-bit counter.
pub proof fn lemma_wrap64_add(n: int, acc: u64, x: u64)
    requires
        n >= 0,
        acc == wrap64(n),
    ensures
        acc.wrapping_add(x) == wrap64(n + x),
{
    let m = u64::MAX + 1;
    vstd::arithmetic::div_mod::lemma_add_mod_noop_right(x as int, n, m);
    assert(wrap64(acc + x) == wrap64(n + x));
    if acc + x < m {
        vstd::arithmetic::div_mod::lemma_small_mod((acc + x) as nat, m as nat);
    } else {
        vstd::arithmetic::div_mod::lemma_small_mod((acc + x - m) as nat, m as nat);
        vstd::arithmetic::div_mod::lemma_mod_add_multiples_vanish(acc + x - m, m);
    }
}

impl<'s, 'a> ListWalk<'s, 'a> {
    #[verifier::type_invariant]
    spec fn wf(self) -> bool {
        ends(*self.rest, self.len@)
    }

    /// Go on to the next region, if there is one.
    pub fn next(&mut self) -> (r: Option<Span>)
        ensures
            r == (if old(self)@.len() == 0 {
                None
            } else {
                Some(old(self)@[0])
            }),
            final(self)@ == (if old(self)@.len() == 0 {
                old(self)@
            } else {
                old(self)@.drop_first()
            }),
    {
        proof {
            use_type_invariant(&*self);
        }
        let ghost n = self.len@;
        match self.rest {
            None => None,
            Some(node) => {
                let region = node.region;
                *self = ListWalk { rest: &node.next, len: Ghost((n - 1) as nat) };
                assert(self@ =~= old(self)@.drop_first());
                Some(region)
            },
        }
    }
}

impl<'a> FreeList<'a> {
    #[verifier::type_invariant]
    spec fn wf(self) -> bool {
        ends(self.head, self.len@)
    }

    /// The empty list.
    pub fn new() -> (r: Self)
        ensures
            r@ == Seq::<Span>::empty(),
    {
        FreeList { head: None, len: Ghost(0) }
    }

    /// Whether there is no region on the list.
    pub fn is_empty(&self) -> (r: bool)
        ensures
            r == (self@.len() == 0),
    {
        proof {
            use_type_invariant(self);
        }
        self.head.is_none()
    }

    /// Put a node in front, with the region that it stands for.
    fn link(&mut self, node: &'a mut FreeNode<'a>)
        ensures
            final(self)@ == seq![old(node).region] + old(self)@,
    {
        let mut rest = FreeList::new();
        std::mem::swap(self, &mut rest);
        proof {
            use_type_invariant(&rest);
        }
        let ghost n = rest.len@;
        node.next = rest.head;
        *self = FreeList { head: Some(node), len: Ghost(n + 1) };
    }

    /// Take the node in front, if there is one.
    fn unlink(&mut self) -> (r: Option<&'a mut FreeNode<'a>>)
        ensures
            if old(self)@.len() == 0 {
                r is None && final(self)@ == old(self)@
            } else {
                &&& r matches Some(node) && node.region == old(self)@[0]
                &&& final(self)@ == old(self)@.drop_first()
            },
    {
        let mut all = FreeList::new();
        std::mem::swap(self, &mut all);
        proof {
            use_type_invariant(&all);
        }
        let ghost n = all.len@;
        match all.head {
            None => None,
            Some(node) => {
                *self = FreeList { head: node.next.take(), len: Ghost((n - 1) as nat) };
                assert(self@ =~= old(self)@.drop_first());
                Some(node)
            },
        }
    }

    /// Put a region in front, linked through `node`.
    pub fn push(&mut self, region: Span, node: &'a mut FreeNode<'a>)
        ensures
            final(self)@ == seq![region] + old(self)@,
    {
        node.region = region;
        self.link(node);
    }

    /// Take the region in front, if there is one. Its node is on no list any more.
    pub fn pop(&mut self) -> (r: Option<Span>)
        ensures
            r == (if old(self)@.len() == 0 {
                None
            } else {
                Some(old(self)@[0])
            }),
            final(self)@ == (if old(self)@.len() == 0 {
                old(self)@
            } else {
                old(self)@.drop_first()
            }),
    {
        match self.unlink() {
            None => None,
            Some(node) => Some(node.region),
        }
    }

    /// Move the regions of `other` onto `self` one by one, so that they end up
    /// in reverse order.
    fn push_all_reversed(&mut self, other: FreeList<'a>)
        ensures
            final(self)@ == other@.reverse() + old(self)@,
    {
        let ghost all = other@;
        let mut rest = other;
        loop
            invariant
                rest@.reverse() + self@ == all.reverse() + old(self)@,
            ensures
                self@ == all.reverse() + old(self)@,
            decreases rest@.len(),
        {
            let ghost before = rest@;
            let ghost mine = self@;
            match rest.unlink() {
                None => {
                    assert(rest@.reverse() + self@ =~= self@);
                    break;
                },
                Some(node) => {
                    self.link(node);
                    assert(rest@.reverse() + self@ =~= before.reverse() + mine);
                },
            }
        }
    }

    /// Move all the regions of `other` in front, in their order.
    pub fn prepend(&mut self, other: FreeList<'a>)
        ensures
            final(self)@ == other@ + old(self)@,
    {
        let mut reversed = FreeList::new();
        reversed.push_all_reversed(other);
        assert(reversed@ =~= other@.reverse());
        self.push_all_reversed(reversed);
        assert(other@.reverse().reverse() =~= other@);
    }

    /// Walk along the list, from the region in front on.
    pub fn walk<'s>(&'s self) -> (r: ListWalk<'s, 'a>)
        ensures
            r@ == self@,
    {
        proof {
            use_type_invariant(self);
        }
        let ghost n = self.len@;
        ListWalk { rest: &self.head, len: Ghost(n) }
    }

    /// The bytes in all the regions.
    pub fn bytes(&self) -> (r: usize)
        ensures
            r == wrap(sum_len(self@)),
    {
        let mut bytes: usize = 0;
        let mut walk = self.walk();
        let ghost mut done: Seq<Span> = Seq::empty();
        proof {
            vstd::arithmetic::div_mod::lemma_small_mod(0, (usize::MAX + 1) as nat);
        }
        loop
            invariant
                done + walk@ == self@,
                bytes == wrap(sum_len(done)),
            ensures
                bytes == wrap(sum_len(self@)),
            decreases walk@.len(),
        {
            let ghost rest = walk@;
            match walk.next() {
                None => {
                    assert(done + walk@ =~= done);
                    break;
                },
                Some(region) => {
                    proof {
                        lemma_sum_len_back(done, region);
                        lemma_wrap_add(sum_len(done), bytes, region.len);
                        assert(done.push(region) + walk@ =~= done + rest);
                        done = done.push(region);
                    }
                    bytes = bytes.wrapping_add(region.len);
                },
            }
        }
        bytes
    }

    /// The number of regions.
    pub fn count(&self) -> (r: u64)
        ensures
            r == wrap64(self@.len() as int),
    {
        let mut count: u64 = 0;
        let mut walk = self.walk();
        let ghost mut done: int = 0;
        loop
            invariant
                done >= 0,
                done + walk@.len() == self@.len(),
                count == wrap64(done),
            ensures
                count == wrap64(self@.len() as int),
            decreases walk@.len(),
        {
            if walk.next().is_none() {
                break;
            }
            proof {
                lemma_wrap64_add(done, count, 1);
                done = done + 1;
            }
            count = count.wrapping_add(1);
        }
        count
    }
}

} // verus!
