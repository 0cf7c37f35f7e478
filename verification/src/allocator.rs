//! The bump-pointer allocator's arithmetic.
//!
//! Only its contract matters to the rest of the core: it never relocates
//! what it handed out, it signals exhaustion by a distinguishable
//! failure instead of corrupting state, and it never reclaims.  The
//! region it draws from is given to `init` as a pair of plain addresses;
//! reading those out of the link map is the runtime's business.

use vstd::prelude::*;

verus! {

/// The smallest multiple of `align` that is at least `n`.
pub open spec fn spec_align_up(n: int, align: int) -> int {
    if n % align == 0 {
        n
    } else {
        n + align - n % align
    }
}

/// `spec_align_up` really is the aligned round-up: a multiple of
/// `align`, no smaller than `n`, and less than one whole alignment
/// above it.
pub proof fn lemma_align_up(n: int, align: int)
    requires
        align >= 1,
        n >= 0,
    ensures
        spec_align_up(n, align) % align == 0,
        n <= spec_align_up(n, align) < n + align,
{
    if n % align != 0 {
        assert(0 <= n % align < align) by (nonlinear_arith)
            requires
                align >= 1,
                n >= 0,
        ;
        assert((n + align - n % align) % align == 0) by (nonlinear_arith)
            requires
                align >= 1,
                n >= 0,
                0 <= n % align < align,
        ;
    }
}

pub struct Allocator {
    /// The next address to hand out.
    pub next: usize,
    /// One past the last usable address of the region.
    pub end: usize,
}

impl Allocator {
    /// An allocator over the empty region; unusable until `init`.
    pub fn new() -> (a: Allocator)
        ensures
            a.next == 0,
            a.end == 0,
    {
        Allocator { next: 0, end: 0 }
    }

    /// Point the allocator at its region: it will hand out addresses
    /// from `start` up to (not including) `end`.
    pub fn init(&mut self, start: usize, end: usize)
        ensures
            final(self).next == start,
            final(self).end == end,
    {
        self.next = start;
        self.end = end;
    }

    /// Hand out `size` bytes at the next `align`-aligned address, or
    /// report exhaustion, untouched, when the region cannot hold them.
    /// Never reclaims and never relocates: the bump pointer only grows.
    pub fn allocate(&mut self, size: usize, align: usize) -> (r: Option<usize>)
        requires
            align >= 1,
        ensures
            final(self).end == old(self).end,
            r is Some <==> spec_align_up(old(self).next as int, align as int) + size
                <= old(self).end,
            r matches Some(a) ==> {
                &&& a == spec_align_up(old(self).next as int, align as int)
                &&& (a as int) % (align as int) == 0
                &&& old(self).next <= a < old(self).next + align
                &&& a + size <= old(self).end
                &&& final(self).next == a + size
            },
            r is None ==> final(self).next == old(self).next,
    {
        proof {
            lemma_align_up(self.next as int, align as int);
        }
        let rem = self.next % align;
        let pad = if rem == 0 {
            0
        } else {
            align - rem
        };
        if pad > usize::MAX - self.next {
            // the round-up itself overflows the address space, so the
            // region (whose end fits in a usize) cannot hold the block
            return None;
        }
        let start = self.next + pad;
        if size > usize::MAX - start || start + size > self.end {
            return None;
        }
        self.next = start + size;
        Some(start)
    }
}

} // verus!
