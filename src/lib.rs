//! An event-sourcing core: stream names, an append-only message store with
//! optimistic concurrency, per-stream lanes that fold a stream into an
//! aggregate's state and commit the events its commands emit, a command
//! center that routes commands to lanes, projection subscriptions to the
//! global log, and the command schema that aggregate definitions give rise to.

pub mod command_center;
pub mod lane;
pub mod projection;
pub mod schema;
pub mod store;
pub mod stream_name;
