//! Whether the tunnel works: the probe through the proxy, the heartbeat that
//! tells of it, and what is done when it fails.

pub mod heartbeat;
pub mod probe;
pub mod recovery;
