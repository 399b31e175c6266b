//! An intrusive doubly-linked list for kernel bookkeeping, with a verified
//! pointer-graph discipline.
//!
//! An _intrusive_ list is a list whose link fields live inside the stored
//! element itself, so no separate wrapper node has to be allocated per
//! element. The elements live in an arena of stable slots owned by the list;
//! every link between elements names a slot, never an address, so the whole
//! pointer graph stays auditable in one place.

pub mod entry;
pub mod laws;
pub mod link;
pub mod list;
pub mod region;
