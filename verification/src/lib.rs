//! A partitioned mark-sweep garbage collected heap.
//!
//! A [`GcHeap`] holds nodes in partitions. Roots and nodes held by scopes are kept, and so is what
//! they reach, through whatever partitions: a collection marks all partitions and then sweeps one
//! of them. A partition can also be marked and swept on its own, in as many steps as the owner
//! likes; such a sweep keeps what was marked.
//!
//! The contracts of the operations are stated over [`model::HeapView`]; what they amount to
//! together is stated in [`laws`].

pub mod arena;
pub mod codegen;
pub mod collecting;
pub mod gctype;
pub mod heap;
pub mod helpers;
pub mod laws;
pub mod lemmas;
pub mod marking;
pub mod model;
pub mod node;
pub mod node_link;
pub mod partition;
pub mod progress;
pub mod scope;
pub mod scoping;
pub mod sweeping;
pub mod table;
pub mod trace;
pub mod type_registry;
pub mod walking;
pub mod weak_id;

pub use arena::{GcArena, ARENA_CAPACITY, MAX_ARENA_ALLOC};
pub use gctype::{GcTypeInfo, GcTypeRegistry};
pub use heap::scopes::GcScope;
pub use heap::weak::GcWeak;
pub use heap::GcHeap;
pub use helpers::{unlikely, GcError, GcResult};
pub use node::{GcHead, GcNodeFlag, GcPartitionId, GcPtr, GcTriColor};
pub use node_link::GcNodeLink;
pub use partition::GcPartition;
pub use scope::{GcScopeStackId, GcScopeState};
pub use trace::{GcNode, GcRef, GcTrace, GcTraceCtx, GcTraceFn};
pub use weak_id::GcWeakRawId;
