//! A parallel task scheduler for an entity-component-system style runtime.
//!
//! Systems (units of work over a shared [`world::World`]) are composed into a
//! directed acyclic execution plan that respects user-declared ordering and
//! grouping, rejects structural mistakes (cycles, redundant hierarchy, illegal
//! ambiguity) at build time, evaluates run conditions with change-detection
//! semantics, and dispatches ready systems while preserving data-race freedom.
//!
//! Two runtime conveniences of schedulers of this kind are outside this
//! model: the world stand-in has no deferred-mutation queue, so no synthetic
//! apply nodes are inserted between a writer and its dependents, and under
//! the tolerated setting ambiguities are neither logged nor collected into a
//! report — only the erroring setting acts on them.

pub mod plan;
pub mod config;
pub mod connection;
pub mod executor;
pub mod graph;
pub mod schedule;
pub mod system;
pub mod world;

pub use config::{OrderTarget, SetConfig, SystemConfigs};
pub use schedule::{LogLevel, NodeId, Schedule, ScheduleBuildError, ScheduleBuildSettings};
pub use executor::TickState;
pub use system::{Condition, SystemAction, SystemDesc};
pub use connection::{
    ChannelId, Connection, ConnectionError, ConnectionEvent, ConnectionId, ConnectionLostEvent,
    ConnectionState,
};
pub use world::World;
