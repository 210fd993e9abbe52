use crate::error::TransportError;
use crate::freshness::Freshness;
use crate::transport::{disconnect_spec, fresh_link, inject_spec, Link, LinkView, SenseTransport};
use vstd::prelude::*;
use vstd::string::*;

verus! {

/// Unix socket transport for local IPC — simulated with in-memory queues.
#[derive(Debug)]
pub struct UnixSocketTransport {
    socket_path: String,
    link: Link,
}

impl UnixSocketTransport {
    /// The socket path the transport was created for.
    pub closed spec fn path(&self) -> Seq<char> {
        self.socket_path@
    }

    pub fn new(path: &str) -> (transport: Self)
        ensures
            transport.link() == fresh_link(),
            transport.path() == path@,
    {
        Self { socket_path: path.to_owned(), link: Link::new() }
    }

    /// Simulate a response arriving (for testing).
    pub fn inject_response(&mut self, response: &str)
        ensures
            final(self).link() == inject_spec(old(self).link(), response@),
            final(self).path() == old(self).path(),
    {
        self.link.inject(response);
    }

    /// Disconnect the transport.
    pub fn disconnect(&mut self)
        ensures
            final(self).link() == disconnect_spec(old(self).link()),
            final(self).path() == old(self).path(),
    {
        self.link.disconnect();
    }

    /// Get the socket path.
    pub fn socket_path(&self) -> (path: &str)
        ensures
            path@ == self.path(),
    {
        self.socket_path.as_str()
    }
}

impl SenseTransport for UnixSocketTransport {
    closed spec fn link(&self) -> LinkView {
        self.link@
    }

    open spec fn level(&self) -> Freshness {
        Freshness::Warm { poll_interval_ms: 10 }
    }

    fn send(&mut self, command: &str) -> (result: Result<(), TransportError>)
        ensures
            final(self).path() == old(self).path(),
    {
        if !self.is_connected() {
            return Err(TransportError::Disconnected);
        }
        self.link.push_outgoing(command);
        Ok(())
    }

    fn recv(&mut self, _timeout_ms: u64) -> (result: Result<String, TransportError>)
        ensures
            final(self).path() == old(self).path(),
    {
        if !self.is_connected() {
            return Err(TransportError::Disconnected);
        }
        if let Some(response) = self.link.pop_incoming() {
            return Ok(response);
        }
        Err(TransportError::Timeout)
    }

    fn freshness(&self) -> (level: Freshness) {
        Freshness::Warm { poll_interval_ms: 10 }
    }

    fn is_connected(&self) -> (connected: bool) {
        self.link.is_connected()
    }
}

} // verus!
