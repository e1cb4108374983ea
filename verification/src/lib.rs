//! Concurrency-safe state-access kernel for an entity-component-system
//! runtime: a borrow-tracked cell, a type-keyed resource container, a
//! type-tagged event buffer, an execution engine that dispatches events
//! depth-first, and a free-list index allocator.

pub mod allocator;
pub mod borrow;
pub mod entity;
pub mod erased_vec;
pub mod events;
pub mod resources;
pub mod system;

pub use allocator::EntityIndexAllocator;
pub use borrow::AtomicRefCell;
pub use entity::Entity;
pub use erased_vec::ErasedVec;
pub use events::Context;
pub use events::Event;
pub use events::EventHandlers;
pub use resources::OwnedResources;
pub use resources::RefResources;
pub use resources::Resource;
pub use resources::ResourceError;
pub use resources::ResourcesEnum;
pub use system::Action;
pub use system::Executor;
pub use system::Run;
