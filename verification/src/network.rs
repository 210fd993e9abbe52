use crate::error::TransportError;
use crate::freshness::Freshness;
use crate::transport::{disconnect_spec, fresh_link, inject_spec, Link, LinkView, SenseTransport};
use vstd::prelude::*;
use vstd::string::*;

verus! {

/// TCP-based network transport for remote sense modules — simulated with in-memory queues.
#[derive(Debug)]
pub struct NetworkTransport {
    address: String,
    link: Link,
}

impl NetworkTransport {
    /// The remote address the transport was created for.
    pub closed spec fn addr(&self) -> Seq<char> {
        self.address@
    }

    pub fn new(addr: &str) -> (transport: Self)
        ensures
            transport.link() == fresh_link(),
            transport.addr() == addr@,
    {
        Self { address: addr.to_owned(), link: Link::new() }
    }

    /// Simulate a response arriving (for testing).
    pub fn inject_response(&mut self, response: &str)
        ensures
            final(self).link() == inject_spec(old(self).link(), response@),
            final(self).addr() == old(self).addr(),
    {
        self.link.inject(response);
    }

    /// Disconnect the transport.
    pub fn disconnect(&mut self)
        ensures
            final(self).link() == disconnect_spec(old(self).link()),
            final(self).addr() == old(self).addr(),
    {
        self.link.disconnect();
    }

    /// Get the remote address.
    pub fn address(&self) -> (addr: &str)
        ensures
            addr@ == self.addr(),
    {
        self.address.as_str()
    }
}

impl SenseTransport for NetworkTransport {
    closed spec fn link(&self) -> LinkView {
        self.link@
    }

    open spec fn level(&self) -> Freshness {
        Freshness::Cold { snapshot_age_ms: 1000 }
    }

    fn send(&mut self, command: &str) -> (result: Result<(), TransportError>)
        ensures
            final(self).addr() == old(self).addr(),
    {
        if !self.is_connected() {
            return Err(TransportError::Disconnected);
        }
        self.link.push_outgoing(command);
        Ok(())
    }

    fn recv(&mut self, _timeout_ms: u64) -> (result: Result<String, TransportError>)
        ensures
            final(self).addr() == old(self).addr(),
    {
        if !self.is_connected() {
            return Err(TransportError::Disconnected);
        }
        if let Some(response) = self.link.pop_incoming() {
            return Ok(response);
        }
        Err(TransportError::Timeout)
    }

    fn freshness(&self) -> (level: Freshness) {
        Freshness::Cold { snapshot_age_ms: 1000 }
    }

    fn is_connected(&self) -> (connected: bool) {
        self.link.is_connected()
    }
}

} // verus!
