//! Controller for a fleet of game-server containers.
//!
//! The controller accepts connections from a proxy, a limbo, a lobby and many
//! minigame servers, tells the proxy which backends exist, and on demand picks
//! or spawns a minigame server for a waiting player. This crate holds the
//! verified core: the packet codec and framing, the unique-name set, the
//! status registry, the per-kind cluster state machine and the brain's
//! dispatch logic, each as plain data and step functions with contracts.
//! The I/O shell (sockets, container runtime, HTTP endpoint) drives these
//! functions from outside the crate.

pub mod brain;
pub mod cluster;
pub mod codec;
pub mod msgpack;
pub mod names;
pub mod packet;
pub mod registry;
pub mod session;
pub mod spawner;
pub mod strutil;
