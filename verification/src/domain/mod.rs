//! Entities and value objects. Depends on nothing else in the crate.

pub mod arena;
pub mod deps;
pub mod job;
pub mod resource;
pub mod time;

pub use arena::{Arena, ArenaRestoreError, JobId, SlotState};
pub use deps::Deps;
pub use job::{AccountId, Job, JobState, PriorityClass, TransitionError};
pub use resource::{Capacity, ResourceRequest, Resources};
pub use time::{VirtualDuration, VirtualTime};
