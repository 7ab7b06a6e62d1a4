//! Identifiers of what a storage manager holds.
use vstd::prelude::*;

verus! {

/// A container: a file of pages.
pub type ContainerId = u16;

/// A segment of a container.
pub type SegmentId = u8;

/// A page of a container.
pub type PageId = u16;

/// A slot of a page.
pub type SlotId = u16;

/// A transaction.
#[derive(Clone, Copy, Debug, PartialEq, Eq, Structural)]
pub struct TransactionId {
    pub id: u64,
}

/// Where a value is stored.
#[derive(Clone, Copy, Debug, PartialEq, Eq, Structural)]
pub struct ValueId {
    pub container_id: ContainerId,
    pub segment_id: Option<SegmentId>,
    pub page_id: Option<PageId>,
    pub slot_id: Option<SlotId>,
}

/// The slot of a page of a container.
pub open spec fn slot_id(container_id: ContainerId, page_id: PageId, slot: SlotId) -> ValueId {
    ValueId { container_id, segment_id: None, page_id: Some(page_id), slot_id: Some(slot) }
}

impl ValueId {
    /// The slot of a page of a container.
    pub fn new_slot(container_id: ContainerId, page_id: PageId, slot_id: SlotId) -> (r: ValueId)
        ensures
            r == crate::ids::slot_id(container_id, page_id, slot_id),
    {
        ValueId { container_id, segment_id: None, page_id: Some(page_id), slot_id: Some(slot_id) }
    }
}

} // verus!
