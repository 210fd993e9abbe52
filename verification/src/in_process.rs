use crate::error::TransportError;
use crate::freshness::Freshness;
use crate::transport::{
    disconnect_spec, fresh_link, inject_spec, last_sent_spec, text_of, Link, LinkView, SenseTransport,
};
use vstd::prelude::*;

verus! {

/// In-process transport using queues — for embedded/single-process use.
#[derive(Debug)]
pub struct InProcessTransport {
    link: Link,
}

impl InProcessTransport {
    pub fn new() -> (transport: Self)
        ensures
            transport.link() == fresh_link(),
    {
        Self { link: Link::new() }
    }

    /// Simulate a response arriving (for testing).
    pub fn inject_response(&mut self, response: &str)
        ensures
            final(self).link() == inject_spec(old(self).link(), response@),
    {
        self.link.inject(response);
    }

    /// Disconnect the transport.
    pub fn disconnect(&mut self)
        ensures
            final(self).link() == disconnect_spec(old(self).link()),
    {
        self.link.disconnect();
    }

    /// Read the last sent command (for testing).
    pub fn last_sent(&self) -> (last: Option<String>)
        ensures
            text_of(last) == last_sent_spec(self.link()),
    {
        self.link.last_outgoing()
    }
}

impl Default for InProcessTransport {
    fn default() -> (transport: Self)
        ensures
            transport.link() == fresh_link(),
    {
        Self::new()
    }
}

impl SenseTransport for InProcessTransport {
    closed spec fn link(&self) -> LinkView {
        self.link@
    }

    open spec fn level(&self) -> Freshness {
        Freshness::Hot
    }

    fn send(&mut self, command: &str) -> (result: Result<(), TransportError>) {
        if !self.is_connected() {
            return Err(TransportError::Disconnected);
        }
        self.link.push_outgoing(command);
        Ok(())
    }

    fn recv(&mut self, timeout_ms: u64) -> (result: Result<String, TransportError>) {
        if !self.is_connected() {
            return Err(TransportError::Disconnected);
        }
        // Check if we have data immediately
        if let Some(response) = self.link.pop_incoming() {
            return Ok(response);
        }
        // No data is buffered: report a timeout at once, whatever the timeout
        if timeout_ms == 0 {
            return Err(TransportError::Timeout);
        }
        Err(TransportError::Timeout)
    }

    fn freshness(&self) -> (level: Freshness) {
        Freshness::Hot
    }

    fn is_connected(&self) -> (connected: bool) {
        self.link.is_connected()
    }
}

} // verus!
