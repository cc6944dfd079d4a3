//! Memory manager backing a just-in-time code generator.
//!
//! A [`memory::Memory`] reserves one large block of virtual address space,
//! carves it into page-aligned segments grouped by the page protection they
//! will finally hold, lets the caller bump-allocate bytes into those segments
//! while they are still writable, and then irreversibly transitions every
//! segment to its target protection.
//!
//! All bookkeeping is done over byte offsets into the reservation; the caller
//! owns the actual mapping and applies the protection changes that the
//! operations here report back.

pub mod align;
pub mod memory;
pub mod protection;
pub mod segment;
