//! The cluster as the scheduler sees it. Depends only on `domain`.

pub mod slot;

pub use slot::{CapacityError, SlotIndex, SlotInventory, WorkerSlot};
