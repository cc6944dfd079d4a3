//! The reserved region: owns one large virtual-address reservation (as pure
//! offset bookkeeping), creates, grows and selects segments, and exposes the
//! allocation, finalize and free operations.
//!
//! The caller owns the actual mapping: it reserves `size` bytes of address
//! space with no access after construction, applies each [`ProtectAction`]
//! and writable [`Span`] these operations report, and unmaps the span
//! returned by [`Memory::free`].

use vstd::prelude::*;
use crate::align::{
    align_up, checked_align_up, is_pow2, is_power_of_two, lemma_align_up_le, lemma_align_up_props,
    lemma_divides_transitive, lemma_mod_sum_zero_left, lemma_pow2_le_divides,
    spec_align_up,
};
use crate::protection::{BranchProtection, Protection};
use crate::segment::Segment;
use vstd::arithmetic::div_mod::lemma_small_mod;

verus! {

/// Errors surfaced by the region's operations.
#[derive(Clone, Copy, Debug, PartialEq, Eq, Structural)]
pub enum MemoryError {
    /// The address-space reservation could not be set up.
    ReservationFailure,
    /// Satisfying the request would exceed the original reservation.
    CapacityExceeded,
    /// The reservation was already released by `free`.
    RegionFreed,
}

/// A byte range of the reservation, as an offset and a length.
#[derive(Clone, Copy, Debug, PartialEq, Eq, Structural)]
pub struct Span {
    pub base: usize,
    pub len: usize,
}

/// A protection change the caller must apply to a range of the mapping.
#[derive(Clone, Copy, Debug, PartialEq, Eq, Structural)]
pub struct ProtectAction {
    pub base: usize,
    pub len: usize,
    pub prot: Protection,
}

/// A successful allocation: the offset of the new bytes within the
/// reservation, and, when a segment was created or grown, the segment range
/// the caller must make readable and writable before writing into it.
#[derive(Clone, Copy, Debug)]
pub struct AllocOutput {
    pub offset: usize,
    pub make_writable: Option<Span>,
}

/// The memory manager for one reservation. All addresses are byte offsets
/// into the reservation; `size` is its total length, `position` the cursor
/// up to which it has been carved into segments.
pub struct Memory {
    pub size: usize,
    pub position: usize,
    pub page_size: usize,
    pub segments: Vec<Segment>,
    pub mapped: bool,
    pub branch_protection: BranchProtection,
}

impl Memory {
    /// Where segment `i` must start for the segments to tile `[0, position)`
    /// in creation order.
    pub open spec fn seg_start(segs: Seq<Segment>, i: int) -> int {
        if i == 0 {
            0
        } else {
            segs[i - 1].base + segs[i - 1].len
        }
    }

    /// The end of the last segment, i.e. how much of the reservation the
    /// segments occupy.
    pub open spec fn segs_end(segs: Seq<Segment>) -> int {
        if segs.len() == 0 {
            0
        } else {
            segs.last().base + segs.last().len
        }
    }

    /// The sum of all segment lengths.
    pub open spec fn total_len(segs: Seq<Segment>) -> int
        decreases segs.len(),
    {
        if segs.len() == 0 {
            0
        } else {
            Self::total_len(segs.drop_last()) + segs.last().len
        }
    }

    /// The region's invariant: the page size is a positive power of two, the
    /// cursor stays inside the page-rounded reservation, and the segments
    /// tile `[0, position)` with page-aligned, disjoint, contiguous ranges
    /// in creation order. Once freed, no segments remain.
    pub open spec fn inv(self) -> bool {
        let page = self.page_size as int;
        let segs = self.segments@;
        &&& is_pow2(page)
        &&& self.position <= self.size
        &&& self.size as int % page == 0
        &&& self.position as int % page == 0
        &&& forall|i: int| 0 <= i < segs.len() ==> (#[trigger] segs[i]).wf(page)
        &&& forall|i: int|
            0 <= i < segs.len() ==> (#[trigger] segs[i]).base as int % page == 0
        &&& forall|i: int|
            0 <= i < segs.len() ==> (#[trigger] segs[i]).base + segs[i].len <= self.size
        &&& forall|i: int|
            0 <= i < segs.len() ==> (#[trigger] segs[i]).base as int == Self::seg_start(segs, i)
        &&& (self.mapped ==> self.position as int == Self::segs_end(segs))
        &&& (!self.mapped ==> segs.len() == 0)
    }

    /// Segment `s` can serve a request of `size` bytes at alignment `align`
    /// for protection class `prot`: it is open, of that class, and has room.
    pub open spec fn can_take(s: Segment, prot: Protection, size: int, align: int) -> bool {
        &&& s.target_prot == prot
        &&& !s.finalized
        &&& s.fits(size, align)
    }

    /// Some segment can serve the request.
    pub open spec fn has_fit(segs: Seq<Segment>, prot: Protection, size: int, align: int) -> bool {
        exists|i: int| 0 <= i < segs.len() && Self::can_take(#[trigger] segs[i], prot, size, align)
    }

    /// Segment `i` is the first, in creation order, that can serve the
    /// request.
    pub open spec fn first_fit_at(
        segs: Seq<Segment>,
        i: int,
        prot: Protection,
        size: int,
        align: int,
    ) -> bool {
        &&& 0 <= i < segs.len()
        &&& Self::can_take(segs[i], prot, size, align)
        &&& forall|j: int| 0 <= j < i ==> !Self::can_take(#[trigger] segs[j], prot, size, align)
    }

    /// How many bytes of the reservation a request consumes when it cannot
    /// reuse an existing segment: the alignment-padded size, rounded up to
    /// whole pages.
    pub open spec fn needed_bytes(size: int, align: int, page: int) -> int {
        spec_align_up(spec_align_up(size, align), page)
    }

    /// The most recently created segment is open and of the requested class,
    /// so it can be grown in place.
    pub open spec fn grow_applies(segs: Seq<Segment>, prot: Protection) -> bool {
        &&& segs.len() > 0
        &&& segs.last().target_prot == prot
        &&& !segs.last().finalized
    }

    /// The request was served by bump-allocating into existing segment `i`;
    /// nothing else changed and no range needs a protection change.
    pub open spec fn reuse_post(
        pre: Memory,
        post: Memory,
        i: int,
        size: int,
        align: int,
        r: Result<AllocOutput, MemoryError>,
    ) -> bool {
        match r {
            Ok(out) => {
                let s = pre.segments@[i];
                &&& out.make_writable is None
                &&& out.offset as int == s.base + spec_align_up(s.position as int, align)
                &&& post.position == pre.position
                &&& post.segments@.len() == pre.segments@.len()
                &&& Segment::is_bump_of(post.segments@[i], s, size, align)
                &&& forall|j: int|
                    0 <= j < pre.segments@.len() && j != i ==> post.segments@[j]
                        == #[trigger] pre.segments@[j]
            },
            Err(_) => false,
        }
    }

    /// The request was served by growing the last segment by `need` bytes
    /// and bump-allocating into the grown tail. The segment's base does not
    /// move; its whole (grown) range must be made writable again.
    pub open spec fn grow_post(
        pre: Memory,
        post: Memory,
        size: int,
        align: int,
        need: int,
        r: Result<AllocOutput, MemoryError>,
    ) -> bool {
        match r {
            Ok(out) => {
                let n = pre.segments@.len() - 1;
                let s = pre.segments@[n];
                &&& out.offset as int == s.base + spec_align_up(s.position as int, align)
                &&& (out.make_writable matches Some(sp) && sp.base == s.base && sp.len as int
                    == s.len + need)
                &&& post.position as int == pre.position + need
                &&& post.segments@.len() == pre.segments@.len()
                &&& forall|j: int| 0 <= j < n ==> post.segments@[j] == #[trigger] pre.segments@[j]
                &&& post.segments@[n].base == s.base
                &&& post.segments@[n].len as int == s.len + need
                &&& post.segments@[n].target_prot == s.target_prot
                &&& !post.segments@[n].finalized
                &&& post.segments@[n].position as int == spec_align_up(s.position as int, align)
                    + size
            },
            Err(_) => false,
        }
    }

    /// The request was served by creating a brand-new segment of `need`
    /// bytes at the cursor; its whole range must be made writable.
    pub open spec fn fresh_post(
        pre: Memory,
        post: Memory,
        size: int,
        align: int,
        need: int,
        prot: Protection,
        r: Result<AllocOutput, MemoryError>,
    ) -> bool {
        match r {
            Ok(out) => {
                let n = pre.segments@.len() as int;
                &&& out.offset == pre.position
                &&& (out.make_writable matches Some(sp) && sp.base == pre.position && sp.len as int
                    == need)
                &&& post.position as int == pre.position + need
                &&& post.segments@.len() == n + 1
                &&& forall|j: int| 0 <= j < n ==> post.segments@[j] == #[trigger] pre.segments@[j]
                &&& post.segments@[n].base == pre.position
                &&& post.segments@[n].len as int == need
                &&& post.segments@[n].position == size
                &&& post.segments@[n].target_prot == prot
                &&& !post.segments@[n].finalized
            },
            Err(_) => false,
        }
    }

    /// The placement policy, first match wins: reuse the first open segment
    /// of the class with room; else grow the last segment if it is open and
    /// of the class; else create a new segment. The last two consume
    /// `needed_bytes` more of the reservation and fail with
    /// `CapacityExceeded`, changing nothing, exactly when that would
    /// overrun it.
    pub open spec fn alloc_post(
        pre: Memory,
        post: Memory,
        size: int,
        align: int,
        prot: Protection,
        r: Result<AllocOutput, MemoryError>,
    ) -> bool {
        let page = pre.page_size as int;
        let need = Self::needed_bytes(size, align, page);
        if Self::has_fit(pre.segments@, prot, size, align) {
            exists|i: int|
                #![trigger Self::first_fit_at(pre.segments@, i, prot, size, align)]
                Self::first_fit_at(pre.segments@, i, prot, size, align) && Self::reuse_post(
                    pre,
                    post,
                    i,
                    size,
                    align,
                    r,
                )
        } else if Self::grow_applies(pre.segments@, prot) {
            if pre.position + need > pre.size {
                r == Err::<AllocOutput, MemoryError>(MemoryError::CapacityExceeded) && post == pre
            } else {
                Self::grow_post(pre, post, size, align, need, r)
            }
        } else {
            if pre.position + need > pre.size {
                r == Err::<AllocOutput, MemoryError>(MemoryError::CapacityExceeded) && post == pre
            } else {
                Self::fresh_post(pre, post, size, align, need, prot, r)
            }
        }
    }

    /// Everything an allocation promises.
    ///
    /// Besides the placement policy (`alloc_post`), this pins down:
    /// a freed region rejects every request; failure happens exactly when
    /// no open segment of the class has room and the page-rounded request
    /// would overrun the reservation; a returned offset is aligned; existing
    /// segments never move, shrink, or change class or state; and the
    /// allocation lies inside a segment of the requested class.
    pub open spec fn alloc_contract(
        pre: Memory,
        post: Memory,
        size: int,
        align: int,
        prot: Protection,
        r: Result<AllocOutput, MemoryError>,
    ) -> bool {
        &&& post.page_size == pre.page_size
        &&& post.size == pre.size
        &&& post.mapped == pre.mapped
        &&& post.branch_protection == pre.branch_protection
        &&& (!pre.mapped ==> r == Err::<AllocOutput, MemoryError>(MemoryError::RegionFreed) && post
            == pre)
        &&& (pre.mapped ==> Self::alloc_post(pre, post, size, align, prot, r))
        &&& (pre.mapped ==> (r is Err <==> !Self::has_fit(pre.segments@, prot, size, align)
            && pre.position + Self::needed_bytes(size, align, pre.page_size as int) > pre.size))
        &&& (r matches Ok(out) ==> out.offset as int % align == 0)
        &&& post.segments@.len() >= pre.segments@.len()
        &&& (forall|j: int|
            0 <= j < pre.segments@.len() ==> {
                let s0 = #[trigger] pre.segments@[j];
                let s1 = post.segments@[j];
                &&& s1.base == s0.base
                &&& s1.len >= s0.len
                &&& s1.target_prot == s0.target_prot
                &&& s1.finalized == s0.finalized
                &&& s1.position >= s0.position
            })
        &&& (r matches Ok(out) ==> exists|i: int|
            0 <= i < post.segments@.len() && (#[trigger] post.segments@[i]).target_prot == prot
                && post.segments@[i].base <= out.offset && out.offset + size
                <= post.segments@[i].base + post.segments@[i].len)
    }

    /// Sets up the bookkeeping for a reservation of `reserve_size` bytes,
    /// rounded up to the given page size. Fails exactly when `page_size` is
    /// not a power of two or the rounded size does not fit in `usize`.
    ///
    /// The caller reserves the rounded number of bytes of address space with
    /// no access rights; no page is made accessible until a segment is
    /// created over it.
    pub fn with_page_size(
        branch_protection: BranchProtection,
        reserve_size: usize,
        page_size: usize,
    ) -> (r: Result<Memory, MemoryError>)
        ensures
            r is Ok <==> (is_pow2(page_size as int) && spec_align_up(
                reserve_size as int,
                page_size as int,
            ) <= usize::MAX),
            r matches Ok(m) ==> {
                &&& m.inv()
                &&& m.mapped
                &&& m.page_size == page_size
                &&& m.size as int == spec_align_up(reserve_size as int, page_size as int)
                &&& m.position == 0
                &&& m.segments@.len() == 0
                &&& m.branch_protection == branch_protection
            },
            r matches Err(e) ==> e == MemoryError::ReservationFailure,
    {
        if !is_power_of_two(page_size) {
            return Err(MemoryError::ReservationFailure);
        }
        let size = match checked_align_up(reserve_size, page_size) {
            Some(v) => v,
            Option::None => {
                return Err(MemoryError::ReservationFailure);
            },
        };
        proof {
            lemma_align_up_props(reserve_size as int, page_size as int);
            lemma_small_mod(0nat, page_size as nat);
        }
        Ok(
            Memory {
                size,
                position: 0,
                page_size,
                segments: Vec::new(),
                mapped: true,
                branch_protection,
            },
        )
    }

    /// Sets up the bookkeeping for a reservation of `reserve_size` bytes,
    /// rounded up to the operating system's page size.
    ///
    /// Whatever page size the system reports, a region handed back satisfies
    /// the invariant, starts empty at cursor zero, and covers the rounded
    /// reservation size; a failure is always `ReservationFailure`.
    pub fn new(branch_protection: BranchProtection, reserve_size: usize) -> (r: Result<
        Memory,
        MemoryError,
    >)
        ensures
            r matches Ok(m) ==> {
                &&& m.inv()
                &&& m.mapped
                &&& is_pow2(m.page_size as int)
                &&& m.size as int == spec_align_up(reserve_size as int, m.page_size as int)
                &&& m.position == 0
                &&& m.segments@.len() == 0
                &&& m.branch_protection == branch_protection
            },
            r matches Err(e) ==> e == MemoryError::ReservationFailure,
    {
        let page_size = os_page_size();
        Memory::with_page_size(branch_protection, reserve_size, page_size)
    }

    /// Carves a brand-new open segment of `size` bytes, rounded up to whole
    /// pages, out of the next unused bytes of the reservation.
    fn allocate_segment(&mut self, size: usize, target_prot: Protection)
        requires
            old(self).inv(),
            old(self).mapped,
            old(self).position + spec_align_up(size as int, old(self).page_size as int) <= old(
                self,
            ).size,
        ensures
            final(self).inv(),
            final(self).mapped,
            final(self).size == old(self).size,
            final(self).page_size == old(self).page_size,
            final(self).branch_protection == old(self).branch_protection,
            final(self).position as int == old(self).position + spec_align_up(
                size as int,
                old(self).page_size as int,
            ),
            final(self).segments@.len() == old(self).segments@.len() + 1,
            forall|j: int|
                0 <= j < old(self).segments@.len() ==> final(self).segments@[j] == #[trigger] old(
                    self,
                ).segments@[j],
            final(self).segments@.last().base == old(self).position,
            final(self).segments@.last().len as int == spec_align_up(
                size as int,
                old(self).page_size as int,
            ),
            final(self).segments@.last().position == 0,
            final(self).segments@.last().target_prot == target_prot,
            !final(self).segments@.last().finalized,
    {
        let page = self.page_size;
        proof {
            lemma_align_up_props(size as int, page as int);
            lemma_mod_sum_zero_left(
                self.position as int,
                spec_align_up(size as int, page as int),
                page as int,
            );
        }
        let seg_size = align_up(size, page);
        let base = self.position;
        self.position = base + seg_size;
        self.segments.push(Segment::new(base, seg_size, target_prot));
        proof {
            let segs = self.segments@;
            let n = segs.len() - 1;
            assert forall|i: int| 0 <= i < segs.len() implies (#[trigger] segs[i]).base as int
                == Self::seg_start(segs, i) by {
                if i < n {
                    assert(segs[i] == old(self).segments@[i]);
                    if i > 0 {
                        assert(segs[i - 1] == old(self).segments@[i - 1]);
                    }
                } else {
                    if n > 0 {
                        assert(segs[n - 1] == old(self).segments@[n - 1]);
                        assert(old(self).segments@.last() == old(self).segments@[n - 1]);
                    }
                }
            }
        }
    }

    /// Serves a request of `size` bytes at alignment `align` for protection
    /// class `protection`, following the first-fit placement policy stated
    /// by [`Memory::alloc_contract`].
    ///
    /// `align` must be a power of two no larger than the page size; larger
    /// alignments are not honored by the within-segment alignment
    /// arithmetic.
    #[verifier::rlimit(100)]
    pub fn allocate(&mut self, size: usize, align: usize, protection: Protection) -> (r: Result<
        AllocOutput,
        MemoryError,
    >)
        requires
            old(self).inv(),
            is_pow2(align as int),
            align <= old(self).page_size,
        ensures
            final(self).inv(),
            Self::alloc_contract(
                *old(self),
                *final(self),
                size as int,
                align as int,
                protection,
                r,
            ),
    {
        let ghost pre = *old(self);
        if !self.mapped {
            return Err(MemoryError::RegionFreed);
        }
        let page = self.page_size;
        proof {
            lemma_pow2_le_divides(align as int, page as int);
        }

        // Can the request fit into an existing open segment of the class?
        let mut i: usize = 0;
        while i < self.segments.len()
            invariant
                pre == *old(self),
                *self == pre,
                pre.inv(),
                pre.mapped,
                page == pre.page_size,
                is_pow2(align as int),
                align <= page,
                page as int % align as int == 0,
                0 <= i <= pre.segments@.len(),
                forall|j: int|
                    0 <= j < i ==> !Self::can_take(
                        #[trigger] pre.segments@[j],
                        protection,
                        size as int,
                        align as int,
                    ),
            decreases self.segments@.len() - i,
        {
            proof {
                assert(self.segments@[i as int].wf(page as int));
                lemma_divides_transitive(
                    self.segments@[i as int].len as int,
                    page as int,
                    align as int,
                );
            }
            let found = {
                let seg = &self.segments[i];
                seg.target_prot == protection && !seg.finalized && seg.has_space_for(size, align)
            };
            if found {
                proof {
                    assert(Self::first_fit_at(
                        pre.segments@,
                        i as int,
                        protection,
                        size as int,
                        align as int,
                    ));
                    lemma_divides_transitive(
                        self.segments@[i as int].base as int,
                        page as int,
                        align as int,
                    );
                }
                let mut seg = self.segments[i];
                let off = seg.allocate(size, align);
                self.segments[i] = seg;
                let res: Result<AllocOutput, MemoryError> = Ok(
                    AllocOutput { offset: off, make_writable: None },
                );
                proof {
                    lemma_align_up_props(pre.segments@[i as int].position as int, align as int);
                    Self::lemma_alloc_preserves_inv_update(pre, *self, i as int);
                    assert(Self::can_take(
                        pre.segments@[i as int],
                        protection,
                        size as int,
                        align as int,
                    ));
                    assert(Self::has_fit(pre.segments@, protection, size as int, align as int));
                    assert(Self::first_fit_at(
                        pre.segments@,
                        i as int,
                        protection,
                        size as int,
                        align as int,
                    ) && Self::reuse_post(pre, *self, i as int, size as int, align as int, res));
                    assert(Self::alloc_post(
                        pre,
                        *self,
                        size as int,
                        align as int,
                        protection,
                        res,
                    ));
                    assert(off as int % align as int == 0);
                    assert(self.segments@[i as int].target_prot == protection && self.segments@[
                        i as int
                    ].base <= off && off + size <= self.segments@[i as int].base + self.segments@[
                        i as int
                    ].len);
                }
                return res;
            }
            i += 1;
        }

        // No existing segment fits: more of the reservation is consumed.
        let padded = match checked_align_up(size, align) {
            Some(v) => v,
            Option::None => {
                proof {
                    lemma_align_up_props(spec_align_up(size as int, align as int), page as int);
                }
                return Err(MemoryError::CapacityExceeded);
            },
        };
        let needed = match checked_align_up(padded, page) {
            Some(v) => v,
            Option::None => {
                return Err(MemoryError::CapacityExceeded);
            },
        };
        proof {
            lemma_align_up_props(size as int, align as int);
            lemma_align_up_props(padded as int, page as int);
        }
        if needed > self.size - self.position {
            return Err(MemoryError::CapacityExceeded);
        }

        // Can the most recently created segment be grown in place?
        let n = self.segments.len();
        if n > 0 {
            let grow = {
                let seg = &self.segments[n - 1];
                seg.target_prot == protection && !seg.finalized
            };
            if grow {
                proof {
                    assert(self.segments@.last() == self.segments@[n - 1]);
                    assert(self.segments@[n - 1].wf(page as int));
                    lemma_divides_transitive(
                        self.segments@[n - 1].len as int,
                        page as int,
                        align as int,
                    );
                    lemma_divides_transitive(needed as int, page as int, align as int);
                    lemma_divides_transitive(
                        self.segments@[n - 1].base as int,
                        page as int,
                        align as int,
                    );
                    lemma_align_up_le(
                        self.segments@[n - 1].position as int,
                        align as int,
                        self.segments@[n - 1].len as int,
                    );
                }
                let mut seg = self.segments[n - 1];
                proof {
                    lemma_mod_sum_zero_left(seg.len as int, needed as int, align as int);
                    lemma_mod_sum_zero_left(seg.len as int, needed as int, page as int);
                }
                seg.len = seg.len + needed;
                let off = seg.allocate(size, align);
                self.segments[n - 1] = seg;
                self.position = self.position + needed;
                let res: Result<AllocOutput, MemoryError> = Ok(
                    AllocOutput {
                        offset: off,
                        make_writable: Some(Span { base: seg.base, len: seg.len }),
                    },
                );
                proof {
                    lemma_align_up_props(pre.segments@[(n - 1) as int].position as int, align as int);
                    lemma_mod_sum_zero_left(pre.position as int, needed as int, page as int);
                    Self::lemma_alloc_preserves_inv_update(pre, *self, (n - 1) as int);
                    assert(Self::grow_post(pre, *self, size as int, align as int, needed as int, res));
                    assert(Self::alloc_post(
                        pre,
                        *self,
                        size as int,
                        align as int,
                        protection,
                        res,
                    ));
                    assert(off as int % align as int == 0);
                    assert(self.segments@[(n - 1) as int].target_prot == protection
                        && self.segments@[(n - 1) as int].base <= off && off + size
                        <= self.segments@[(n - 1) as int].base + self.segments@[(n - 1) as int].len);
                }
                return res;
            }
        }

        // Create a brand-new segment sized for the request.
        self.allocate_segment(padded, protection);
        let ghost mid = *self;
        let k = self.segments.len() - 1;
        let mut seg = self.segments[k];
        proof {
            assert(self.segments@.last() == self.segments@[k as int]);
            lemma_divides_transitive(seg.len as int, page as int, align as int);
            lemma_small_mod(0nat, align as nat);
            lemma_divides_transitive(seg.base as int, page as int, align as int);
        }
        let off = seg.allocate(size, align);
        self.segments[k] = seg;
        let res: Result<AllocOutput, MemoryError> = Ok(
            AllocOutput { offset: off, make_writable: Some(Span { base: seg.base, len: seg.len }) },
        );
        proof {
            Self::lemma_alloc_preserves_inv_update(mid, *self, k as int);
            assert(Self::fresh_post(
                pre,
                *self,
                size as int,
                align as int,
                needed as int,
                protection,
                res,
            ));
            assert(Self::alloc_post(pre, *self, size as int, align as int, protection, res));
            assert(off as int % align as int == 0);
            assert(self.segments@[k as int].target_prot == protection && self.segments@[
                k as int
            ].base <= off && off + size <= self.segments@[k as int].base + self.segments@[
                k as int
            ].len);
        }
        res
    }

    /// Serves a request for bytes that will become read-only data once the
    /// region is finalized.
    pub fn allocate_readonly(&mut self, size: usize, align: u64) -> (r: Result<
        AllocOutput,
        MemoryError,
    >)
        requires
            old(self).inv(),
            is_pow2(align as int),
            align as int <= old(self).page_size as int,
        ensures
            final(self).inv(),
            Self::alloc_contract(
                *old(self),
                *final(self),
                size as int,
                align as int,
                Protection::Read,
                r,
            ),
    {
        self.allocate(size, align as usize, Protection::Read)
    }

    /// Serves a request for bytes that stay readable and writable after the
    /// region is finalized.
    pub fn allocate_readwrite(&mut self, size: usize, align: u64) -> (r: Result<
        AllocOutput,
        MemoryError,
    >)
        requires
            old(self).inv(),
            is_pow2(align as int),
            align as int <= old(self).page_size as int,
        ensures
            final(self).inv(),
            Self::alloc_contract(
                *old(self),
                *final(self),
                size as int,
                align as int,
                Protection::ReadWrite,
                r,
            ),
    {
        self.allocate(size, align as usize, Protection::ReadWrite)
    }

    /// Serves a request for bytes that become executable code once the
    /// region is finalized.
    pub fn allocate_readexec(&mut self, size: usize, align: u64) -> (r: Result<
        AllocOutput,
        MemoryError,
    >)
        requires
            old(self).inv(),
            is_pow2(align as int),
            align as int <= old(self).page_size as int,
        ensures
            final(self).inv(),
            Self::alloc_contract(
                *old(self),
                *final(self),
                size as int,
                align as int,
                Protection::ReadExecute,
                r,
            ),
    {
        self.allocate(size, align as usize, Protection::ReadExecute)
    }

    /// The protection changes one call to `finalize` reports for the open
    /// segments of `segs`, in creation order.
    pub open spec fn spec_finalize_actions(segs: Seq<Segment>) -> Seq<ProtectAction>
        decreases segs.len(),
    {
        if segs.len() == 0 {
            Seq::empty()
        } else {
            let earlier = Self::spec_finalize_actions(segs.drop_last());
            let s = segs.last();
            if s.finalized {
                earlier
            } else {
                earlier.push(ProtectAction { base: s.base, len: s.len, prot: s.target_prot })
            }
        }
    }

    /// Transitions every still-open segment to finalized and reports, in
    /// creation order, the range and target protection class the caller must
    /// apply to each of them. Already-finalized segments are left untouched,
    /// so a second call changes nothing and reports nothing.
    pub fn finalize(&mut self) -> (actions: Vec<ProtectAction>)
        requires
            old(self).inv(),
        ensures
            final(self).inv(),
            final(self).size == old(self).size,
            final(self).position == old(self).position,
            final(self).page_size == old(self).page_size,
            final(self).mapped == old(self).mapped,
            final(self).branch_protection == old(self).branch_protection,
            final(self).segments@.len() == old(self).segments@.len(),
            forall|i: int|
                0 <= i < old(self).segments@.len() ==> final(self).segments@[i] == (Segment {
                    finalized: true,
                    ..(#[trigger] old(self).segments@[i])
                }),
            actions@ == Self::spec_finalize_actions(old(self).segments@),
            (forall|i: int|
                0 <= i < old(self).segments@.len() ==> (#[trigger] old(
                    self,
                ).segments@[i]).finalized) ==> {
                &&& final(self).segments@ == old(self).segments@
                &&& actions@ == Seq::<ProtectAction>::empty()
            },
    {
        let ghost pre = *old(self);
        let mut actions: Vec<ProtectAction> = Vec::new();
        let n = self.segments.len();
        let mut i: usize = 0;
        while i < n
            invariant
                pre == *old(self),
                n == pre.segments@.len(),
                0 <= i <= n,
                self.size == pre.size,
                self.position == pre.position,
                self.page_size == pre.page_size,
                self.mapped == pre.mapped,
                self.branch_protection == pre.branch_protection,
                self.segments@.len() == n,
                forall|j: int| i <= j < n ==> self.segments@[j] == #[trigger] pre.segments@[j],
                forall|j: int|
                    0 <= j < i ==> self.segments@[j] == (Segment {
                        finalized: true,
                        ..(#[trigger] pre.segments@[j])
                    }),
                actions@ == Self::spec_finalize_actions(pre.segments@.take(i as int)),
            decreases n - i,
        {
            let mut seg = self.segments[i];
            let was_open = seg.finalize();
            self.segments[i] = seg;
            if was_open {
                actions.push(ProtectAction { base: seg.base, len: seg.len, prot: seg.target_prot });
            }
            proof {
                let t = pre.segments@.take(i + 1 as int);
                assert(t.drop_last() =~= pre.segments@.take(i as int));
                assert(t.last() == pre.segments@[i as int]);
            }
            i += 1;
        }
        proof {
            assert(pre.segments@.take(n as int) =~= pre.segments@);
            Self::lemma_same_layout_keeps_inv(pre, *self);
            if forall|j: int| 0 <= j < n ==> (#[trigger] pre.segments@[j]).finalized {
                assert forall|j: int| 0 <= j < n implies self.segments@[j] == #[trigger] pre
                    .segments@[j] by {
                    assert(self.segments@[j] == Segment { finalized: true, ..pre.segments@[j] });
                }
                assert(self.segments@ =~= pre.segments@);
                Self::lemma_finalize_open_none(pre.segments@);
            }
        }
        actions
    }

    /// Finalizing is idempotent: once every segment of `segs` is finalized,
    /// another finalization pass reports no protection actions (and, by the
    /// contract of `finalize`, leaves every segment exactly as it is).
    pub proof fn lemma_finalize_idempotent(segs: Seq<Segment>)
        requires
            forall|i: int| 0 <= i < segs.len() ==> (#[trigger] segs[i]).finalized,
        ensures
            Self::spec_finalize_actions(segs) == Seq::<ProtectAction>::empty(),
    {
        Self::lemma_finalize_open_none(segs);
    }

    /// A fully finalized sequence of segments yields no protection actions.
    proof fn lemma_finalize_open_none(segs: Seq<Segment>)
        requires
            forall|i: int| 0 <= i < segs.len() ==> (#[trigger] segs[i]).finalized,
        ensures
            Self::spec_finalize_actions(segs) == Seq::<ProtectAction>::empty(),
        decreases segs.len(),
    {
        if segs.len() > 0 {
            assert(segs.last() == segs[segs.len() - 1]);
            Self::lemma_finalize_open_none(segs.drop_last());
        }
    }

    /// A state whose segments keep their bases and lengths, and whose
    /// cursor, sizes and mapping state are unchanged, still satisfies the
    /// invariant.
    #[verifier::rlimit(100)]
    proof fn lemma_same_layout_keeps_inv(pre: Memory, post: Memory)
        requires
            pre.inv(),
            post.size == pre.size,
            post.position == pre.position,
            post.page_size == pre.page_size,
            post.mapped == pre.mapped,
            post.segments@.len() == pre.segments@.len(),
            forall|j: int|
                0 <= j < pre.segments@.len() ==> {
                    let s0 = #[trigger] pre.segments@[j];
                    let s1 = post.segments@[j];
                    &&& s1.base == s0.base
                    &&& s1.len == s0.len
                    &&& s1.position == s0.position
                },
        ensures
            post.inv(),
    {
        let page = post.page_size as int;
        let segs = post.segments@;
        let n = segs.len();
        assert forall|j: int| 0 <= j < n implies (#[trigger] segs[j]).wf(page) by {
            assert(pre.segments@[j].wf(page));
        }
        assert forall|j: int| 0 <= j < n implies (#[trigger] segs[j]).base as int % page == 0 by {
            assert(pre.segments@[j].base as int % page == 0);
        }
        assert forall|j: int| 0 <= j < n implies (#[trigger] segs[j]).base + segs[j].len
            <= post.size by {
            assert(pre.segments@[j].base + pre.segments@[j].len <= pre.size);
        }
        assert forall|j: int| 0 <= j < n implies (#[trigger] segs[j]).base as int
            == Self::seg_start(segs, j) by {
            assert(pre.segments@[j].base as int == Self::seg_start(pre.segments@, j));
            if j > 0 {
                assert(pre.segments@[j - 1].base == segs[j - 1].base);
            }
        }
        if post.mapped && n > 0 {
            assert(segs.last() == segs[n - 1]);
            assert(pre.segments@.last() == pre.segments@[n - 1]);
        }
    }

    /// Releases the whole reservation: discards every segment and marks the
    /// region unmapped, returning the span the caller must unmap. Returns
    /// nothing, and changes nothing, if the region was already freed.
    ///
    /// Every offset ever returned by an allocation becomes invalid; the
    /// caller must guarantee that nothing is still reading from or executing
    /// out of the reservation.
    pub fn free(&mut self) -> (r: Option<Span>)
        requires
            old(self).inv(),
        ensures
            final(self).inv(),
            final(self).size == old(self).size,
            final(self).page_size == old(self).page_size,
            final(self).branch_protection == old(self).branch_protection,
            !old(self).mapped ==> r is None && *final(self) == *old(self),
            old(self).mapped ==> {
                &&& r == Some(Span { base: 0, len: old(self).size })
                &&& !final(self).mapped
                &&& final(self).segments@.len() == 0
                &&& final(self).position == old(self).position
            },
    {
        if !self.mapped {
            return Option::None;
        }
        let span = Span { base: 0, len: self.size };
        self.segments.clear();
        self.mapped = false;
        Some(span)
    }

    /// Whether any segment has been finalized. A live region holds content
    /// that may still be referenced, so it must not be torn down implicitly;
    /// a region that is not live can be freed automatically when discarded.
    pub fn is_live(&self) -> (r: bool)
        ensures
            r == exists|i: int|
                0 <= i < self.segments@.len() && (#[trigger] self.segments@[i]).finalized,
    {
        let n = self.segments.len();
        let mut i: usize = 0;
        while i < n
            invariant
                n == self.segments@.len(),
                0 <= i <= n,
                forall|j: int| 0 <= j < i ==> !(#[trigger] self.segments@[j]).finalized,
            decreases n - i,
        {
            if self.segments[i].finalized {
                return true;
            }
            i += 1;
        }
        false
    }

    /// The segments of a mapped region tile exactly the carved prefix of
    /// the reservation: the sum of their lengths is the cursor, which never
    /// exceeds the reserved size.
    pub proof fn lemma_segments_within_reservation(m: Memory)
        requires
            m.inv(),
            m.mapped,
        ensures
            Self::total_len(m.segments@) == m.position as int,
            Self::total_len(m.segments@) <= m.size as int,
    {
        Self::lemma_total_len_is_end(m.segments@);
    }

    /// Under the contiguity invariant, the sum of the segment lengths equals
    /// the end of the last segment.
    proof fn lemma_total_len_is_end(segs: Seq<Segment>)
        requires
            forall|i: int|
                0 <= i < segs.len() ==> (#[trigger] segs[i]).base as int == Self::seg_start(
                    segs,
                    i,
                ),
        ensures
            Self::total_len(segs) == Self::segs_end(segs),
        decreases segs.len(),
    {
        if segs.len() > 0 {
            let prefix = segs.drop_last();
            assert forall|i: int| 0 <= i < prefix.len() implies (#[trigger] prefix[i]).base as int
                == Self::seg_start(prefix, i) by {
                assert(prefix[i] == segs[i]);
                assert(segs[i].base as int == Self::seg_start(segs, i));
                if i > 0 {
                    assert(prefix[i - 1] == segs[i - 1]);
                }
            }
            Self::lemma_total_len_is_end(prefix);
            assert(segs.last() == segs[segs.len() - 1]);
            if segs.len() == 1 {
                assert(Self::segs_end(prefix) == 0);
            } else {
                assert(prefix.last() == segs[segs.len() - 2]);
                assert(segs[segs.len() - 1].base as int == Self::seg_start(segs, segs.len() - 1));
            }
        }
    }

    /// Bumping the cursor of one segment, or growing the last one while
    /// advancing the region cursor by the same amount, preserves the
    /// invariant: no base moved and the ranges still tile the carved prefix.
    proof fn lemma_alloc_preserves_inv_update(pre: Memory, post: Memory, i: int)
        requires
            pre.inv(),
            pre.mapped,
            post.page_size == pre.page_size,
            post.size == pre.size,
            post.mapped,
            post.segments@.len() == pre.segments@.len(),
            0 <= i < pre.segments@.len(),
            forall|j: int|
                0 <= j < pre.segments@.len() && j != i ==> post.segments@[j] == #[trigger] pre
                    .segments@[j],
            post.segments@[i].base == pre.segments@[i].base,
            post.segments@[i].wf(post.page_size as int),
            post.segments@[i].base as int % post.page_size as int == 0,
            post.segments@[i].base + post.segments@[i].len <= post.size,
            i < pre.segments@.len() - 1 ==> post.segments@[i].len == pre.segments@[i].len,
            i == pre.segments@.len() - 1 ==> post.position as int == post.segments@[i].base
                + post.segments@[i].len,
            i < pre.segments@.len() - 1 ==> post.position == pre.position,
            post.position as int % post.page_size as int == 0,
            post.position <= post.size,
        ensures
            post.inv(),
    {
        let page = post.page_size as int;
        let segs = post.segments@;
        let n = segs.len();
        assert forall|j: int| 0 <= j < n implies (#[trigger] segs[j]).wf(page) by {
            if j != i {
                assert(segs[j] == pre.segments@[j]);
                assert(pre.segments@[j].wf(page));
            }
        }
        assert forall|j: int| 0 <= j < n implies (#[trigger] segs[j]).base as int % page == 0 by {
            if j != i {
                assert(segs[j] == pre.segments@[j]);
            }
        }
        assert forall|j: int| 0 <= j < n implies (#[trigger] segs[j]).base + segs[j].len
            <= post.size by {
            if j != i {
                assert(segs[j] == pre.segments@[j]);
            }
        }
        assert forall|j: int| 0 <= j < n implies (#[trigger] segs[j]).base as int
            == Self::seg_start(segs, j) by {
            assert(pre.segments@[j].base as int == Self::seg_start(pre.segments@, j));
            if j > 0 && j - 1 != i {
                assert(segs[j - 1] == pre.segments@[j - 1]);
            }
            if j > 0 && j - 1 == i {
                // the segment before `j` may only have grown if it is the
                // last one, in which case no segment follows it
                assert(i == n - 1 ==> j >= n);
                assert(post.segments@[i].len == pre.segments@[i].len);
            }
        }
        if i == n - 1 {
            assert(segs.last() == segs[n - 1]);
        } else {
            assert(segs.last() == segs[n - 1]);
            assert(segs[n - 1] == pre.segments@[n - 1]);
            assert(pre.segments@.last() == pre.segments@[n - 1]);
        }
    }
}

/// Relies on `region::page::size`: the operating system's page size, queried
/// once per process and cached by the crate. Nothing is assumed of the value;
/// callers check it themselves.
#[verifier::external_body]
fn os_page_size() -> usize {
    region::page::size()
}

} // verus!
