//! Transport layer for sense modules: queues of commands and responses,
//! a time-to-live shadow cache and a command policy with rate limiting.

mod cache;
mod clock;
mod error;
mod freshness;
pub mod in_process;
pub mod network;
mod policy;
pub mod prelude;
mod transport;
pub mod unix;

pub use cache::{CachedShadow, ShadowCache};
pub use clock::Clock;
pub use error::TransportError;
pub use freshness::Freshness;
pub use policy::{RateLimit, TransportPolicy};
pub use in_process::InProcessTransport;
pub use transport::{AnyTransport, SenseTransport, Transport};
pub use network::NetworkTransport;
pub use unix::UnixSocketTransport;
