use jit_memory::memory::{Memory, Span};
use jit_memory::protection::{BranchProtection, Protection};

// Reserve 1 MiB; a read-write and a read-exec allocation land in distinct
// segments; after finalize a further read-write request opens a third
// segment instead of touching the finalized one.
#[test]
fn mixed_classes_and_finalize() {
    let mut m = Memory::with_page_size(BranchProtection::Off, 1 << 20, 4096).unwrap();
    let p0 = m.allocate_readwrite(100, 8).unwrap();
    assert_eq!(p0.offset, 0);
    assert_eq!(m.segments.len(), 1);
    // A different protection class can never reuse segment 0.
    let p1 = m.allocate_readexec(50, 16).unwrap();
    assert_eq!(m.segments.len(), 2);
    assert_eq!(p1.offset, 4096);
    // The new segment's pages must be made writable before bytes go in.
    assert_eq!(p1.make_writable, Some(Span { base: 4096, len: 4096 }));
    assert_eq!(m.segments[1].target_prot, Protection::ReadExecute);
    m.finalize();
    // The original read-write segment is finalized and immutable, so a new
    // request of the same class opens a new segment rather than reusing it.
    let p2 = m.allocate_readwrite(10, 8).unwrap();
    assert_eq!(m.segments.len(), 3);
    assert_eq!(p2.offset, 8192);
    // Offsets handed out earlier are still where they were.
    assert_eq!(m.segments[0].base, 0);
    assert_eq!(m.segments[1].base, 4096);
}

// A region that allocated scratch space but never finalized anything is not
// live: the owner of the mapping is expected to release it automatically
// when the region is discarded.
#[test]
fn discarded_unfinalized_region_is_not_live() {
    let mut m = Memory::with_page_size(BranchProtection::Off, 1 << 20, 4096).unwrap();
    m.allocate_readwrite(100, 8).unwrap();
    assert!(!m.is_live());
    // An explicit free still reports the whole reservation for unmapping.
    let span = m.free().unwrap();
    assert_eq!(span.base, 0);
    assert_eq!(span.len, 1 << 20);
}

#[test]
fn finalized_region_is_live() {
    let mut m = Memory::with_page_size(BranchProtection::Off, 1 << 20, 4096).unwrap();
    assert!(!m.is_live());
    m.allocate_readexec(100, 8).unwrap();
    assert!(!m.is_live());
    m.finalize();
    assert!(m.is_live());
}

#[test]
fn branch_protection_is_recorded() {
    let m = Memory::with_page_size(BranchProtection::Bti, 1 << 16, 4096).unwrap();
    assert_eq!(m.branch_protection, BranchProtection::Bti);
}
