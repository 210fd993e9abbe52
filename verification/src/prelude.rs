//! The items most users need, for a single glob import.

pub use crate::{
    AnyTransport, CachedShadow, Freshness, InProcessTransport, NetworkTransport, RateLimit,
    SenseTransport, ShadowCache, Transport, TransportError, TransportPolicy, UnixSocketTransport,
};
