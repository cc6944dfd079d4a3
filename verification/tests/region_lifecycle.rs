use jit_memory::memory::{Memory, MemoryError, Span};
use jit_memory::protection::{BranchProtection, Protection};

#[test]
fn construction_rounds_to_page() {
    let m = Memory::with_page_size(BranchProtection::Off, 100, 4096).unwrap();
    assert_eq!(m.size, 4096);
    assert_eq!(m.position, 0);
    assert_eq!(m.page_size, 4096);
    assert!(m.mapped);
    assert!(m.segments.is_empty());
}

#[test]
fn construction_rejects_bad_page_size() {
    let r = Memory::with_page_size(BranchProtection::Off, 100, 3);
    assert_eq!(r.err(), Some(MemoryError::ReservationFailure));
    let r = Memory::with_page_size(BranchProtection::Off, usize::MAX, 4096);
    assert_eq!(r.err(), Some(MemoryError::ReservationFailure));
}

#[test]
fn construction_uses_os_page_size() {
    let m = Memory::new(BranchProtection::Off, 1 << 20).unwrap();
    assert_eq!(m.page_size, region::page::size());
    assert!(m.page_size.is_power_of_two());
    assert_eq!(m.size % m.page_size, 0);
    assert!(m.size >= 1 << 20);
}

#[test]
fn capacity_is_enforced() {
    let mut m = Memory::with_page_size(BranchProtection::Off, 8192, 4096).unwrap();
    let out = m.allocate_readwrite(8192, 1).unwrap();
    assert_eq!(out.offset, 0);
    assert_eq!(m.position, 8192);
    // The reservation is exhausted: no silent truncation, a hard error.
    let r = m.allocate_readwrite(1, 1);
    assert_eq!(r.err(), Some(MemoryError::CapacityExceeded));
    // Nothing changed.
    assert_eq!(m.position, 8192);
    assert_eq!(m.segments.len(), 1);
    // A request larger than the whole reservation fails up front.
    let mut m2 = Memory::with_page_size(BranchProtection::Off, 4096, 4096).unwrap();
    let r = m2.allocate_readonly(8192, 1);
    assert_eq!(r.err(), Some(MemoryError::CapacityExceeded));
}

#[test]
fn segments_never_exceed_reservation() {
    let mut m = Memory::with_page_size(BranchProtection::Off, 1 << 16, 4096).unwrap();
    let sizes: [usize; 6] = [100, 5000, 17, 4096, 1, 9000];
    for (k, &size) in sizes.iter().enumerate() {
        let r = if k % 2 == 0 {
            m.allocate_readwrite(size, 8)
        } else {
            m.allocate_readexec(size, 16)
        };
        if r.is_ok() {
            let total: usize = m.segments.iter().map(|s| s.len).sum();
            assert_eq!(total, m.position);
            assert!(total <= m.size);
        }
    }
}

#[test]
fn finalize_is_idempotent() {
    let mut m = Memory::with_page_size(BranchProtection::Off, 1 << 20, 4096).unwrap();
    m.allocate_readwrite(100, 8).unwrap();
    m.allocate_readexec(50, 16).unwrap();
    let actions = m.finalize();
    assert_eq!(actions.len(), 2);
    assert_eq!(actions[0].base, 0);
    assert_eq!(actions[0].len, 4096);
    assert_eq!(actions[0].prot, Protection::ReadWrite);
    assert_eq!(actions[1].base, 4096);
    assert_eq!(actions[1].len, 4096);
    assert_eq!(actions[1].prot, Protection::ReadExecute);
    assert!(m.segments.iter().all(|s| s.finalized));
    let before: Vec<(usize, usize, usize, bool)> =
        m.segments.iter().map(|s| (s.base, s.len, s.position, s.finalized)).collect();
    // Finalizing again reports nothing and changes nothing.
    let again = m.finalize();
    assert!(again.is_empty());
    let after: Vec<(usize, usize, usize, bool)> =
        m.segments.iter().map(|s| (s.base, s.len, s.position, s.finalized)).collect();
    assert_eq!(before, after);
}

#[test]
fn growing_keeps_every_base() {
    let mut m = Memory::with_page_size(BranchProtection::Off, 1 << 20, 4096).unwrap();
    let p0 = m.allocate_readwrite(100, 8).unwrap();
    assert_eq!(p0.offset, 0);
    assert_eq!(m.segments.len(), 1);
    assert_eq!(m.segments[0].len, 4096);
    // Does not fit in the remaining 3996 bytes: the last segment grows.
    let p1 = m.allocate_readwrite(8000, 8).unwrap();
    assert_eq!(p1.offset, 104);
    assert_eq!(m.segments.len(), 1);
    assert_eq!(m.segments[0].base, 0);
    assert_eq!(m.segments[0].len, 4096 + 8192);
    // The grown range is reported for re-protection as one whole span.
    assert_eq!(p1.make_writable, Some(Span { base: 0, len: 4096 + 8192 }));
    // The earlier allocation's offset is untouched by the growth.
    assert_eq!(p0.offset, 0);
}

#[test]
fn classes_are_never_mixed() {
    let mut m = Memory::with_page_size(BranchProtection::Off, 1 << 20, 4096).unwrap();
    m.allocate_readwrite(10, 1).unwrap();
    m.allocate_readonly(10, 1).unwrap();
    m.allocate_readexec(10, 1).unwrap();
    assert_eq!(m.segments.len(), 3);
    assert_eq!(m.segments[0].target_prot, Protection::ReadWrite);
    assert_eq!(m.segments[1].target_prot, Protection::Read);
    assert_eq!(m.segments[2].target_prot, Protection::ReadExecute);
    // A further request of each class reuses exactly its own segment.
    let w = m.allocate_readwrite(10, 1).unwrap();
    assert!(w.offset < 4096);
    // Reuse of an open segment needs no new protection change.
    assert!(w.make_writable.is_none());
    let r = m.allocate_readonly(10, 1).unwrap();
    assert!((4096..8192).contains(&r.offset));
    let x = m.allocate_readexec(10, 1).unwrap();
    assert!((8192..12288).contains(&x.offset));
}

#[test]
fn freed_region_rejects_allocation() {
    let mut m = Memory::with_page_size(BranchProtection::Off, 1 << 20, 4096).unwrap();
    m.allocate_readwrite(100, 8).unwrap();
    let span = m.free();
    assert_eq!(span, Some(Span { base: 0, len: 1 << 20 }));
    assert!(!m.mapped);
    assert!(m.segments.is_empty());
    let r = m.allocate_readwrite(1, 1);
    assert_eq!(r.err(), Some(MemoryError::RegionFreed));
    let r = m.allocate_readexec(1, 1);
    assert_eq!(r.err(), Some(MemoryError::RegionFreed));
    // Freeing twice is harmless and reports nothing to unmap.
    assert_eq!(m.free(), None);
}
