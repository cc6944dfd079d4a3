//! A bump allocator over one contiguous, page-aligned byte range of the
//! reservation, with a fixed target protection class and an open/finalized
//! state.

use vstd::prelude::*;
use crate::align::{align_up, is_pow2, lemma_align_up_le, lemma_align_up_props, spec_align_up};
use crate::protection::Protection;

verus! {

/// One segment of the reservation. `base` and `len` delimit its byte range
/// as offsets into the reservation; `position` is the bump cursor of the
/// next free byte, relative to `base`.
#[derive(Clone, Copy, Debug)]
pub struct Segment {
    pub base: usize,
    pub len: usize,
    pub position: usize,
    pub target_prot: Protection,
    pub finalized: bool,
}

impl Segment {
    /// Well-formed for a region whose pages have size `page`: the cursor
    /// stays inside the segment and the length is a whole number of pages.
    pub open spec fn wf(self, page: int) -> bool {
        &&& self.position <= self.len
        &&& self.len as int % page == 0
    }

    /// A request of `size` bytes at alignment `align` fits into the space
    /// left behind the cursor.
    pub open spec fn fits(self, size: int, align: int) -> bool {
        spec_align_up(self.position as int, align) + size <= self.len
    }

    /// The segment `post` is `pre` after bump-allocating `size` bytes at
    /// alignment `align`: only the cursor moved.
    pub open spec fn is_bump_of(post: Segment, pre: Segment, size: int, align: int) -> bool {
        &&& post.base == pre.base
        &&& post.len == pre.len
        &&& post.target_prot == pre.target_prot
        &&& post.finalized == pre.finalized
        &&& post.position as int == spec_align_up(pre.position as int, align) + size
    }

    /// A fresh, open segment over `[base, base + len)`. The caller is
    /// responsible for making that range writable before bytes are written
    /// into it.
    pub fn new(base: usize, len: usize, target_prot: Protection) -> (s: Segment)
        ensures
            s.base == base,
            s.len == len,
            s.position == 0,
            s.target_prot == target_prot,
            s.finalized == false,
    {
        Segment { base, len, position: 0, target_prot, finalized: false }
    }

    /// Whether `size` bytes at alignment `align` still fit behind the cursor.
    pub fn has_space_for(&self, size: usize, align: usize) -> (r: bool)
        requires
            is_pow2(align as int),
            self.position <= self.len,
            self.len as int % align as int == 0,
        ensures
            r == self.fits(size as int, align as int),
    {
        proof {
            lemma_align_up_le(self.position as int, align as int, self.len as int);
            lemma_align_up_props(self.position as int, align as int);
        }
        let aligned = align_up(self.position, align);
        if size > usize::MAX - aligned {
            false
        } else {
            aligned + size <= self.len
        }
    }

    /// Bump-allocates `size` bytes at alignment `align`; returns the offset
    /// of the allocation within the reservation and advances the cursor
    /// past it.
    pub fn allocate(&mut self, size: usize, align: usize) -> (offset: usize)
        requires
            is_pow2(align as int),
            old(self).position <= old(self).len,
            old(self).len as int % align as int == 0,
            old(self).fits(size as int, align as int),
            old(self).base + old(self).len <= usize::MAX,
        ensures
            Segment::is_bump_of(*final(self), *old(self), size as int, align as int),
            offset as int == old(self).base + spec_align_up(
                old(self).position as int,
                align as int,
            ),
            offset as int % align as int == (old(self).base as int) % (align as int),
            final(self).position <= final(self).len,
    {
        proof {
            lemma_align_up_le(self.position as int, align as int, self.len as int);
            lemma_align_up_props(self.position as int, align as int);
            crate::align::lemma_mod_sum_zero_left(
                self.base as int,
                spec_align_up(self.position as int, align as int),
                align as int,
            );
        }
        let aligned = align_up(self.position, align);
        let offset = self.base + aligned;
        self.position = aligned + size;
        offset
    }

    /// Marks the segment finalized; reports whether it was still open, in
    /// which case its range still needs its target protection applied.
    /// Already-finalized segments are left untouched.
    pub fn finalize(&mut self) -> (was_open: bool)
        ensures
            final(self).base == old(self).base,
            final(self).len == old(self).len,
            final(self).position == old(self).position,
            final(self).target_prot == old(self).target_prot,
            final(self).finalized == true,
            was_open == !old(self).finalized,
    {
        if self.finalized {
            return false;
        }
        self.finalized = true;
        true
    }
}

} // verus!
