use crate::error::TransportError;
use crate::freshness::Freshness;
use crate::in_process::InProcessTransport;
use crate::network::NetworkTransport;
use crate::unix::UnixSocketTransport;
use vstd::prelude::*;
use vstd::string::*;

verus! {

/// The abstract state of a transport: commands sent, responses waiting to be
/// received (oldest first), and whether it is connected.
pub struct LinkView {
    pub outgoing: Seq<Seq<char>>,
    pub incoming: Seq<Seq<char>>,
    pub connected: bool,
}

/// A new transport: connected, nothing sent, nothing waiting.
pub open spec fn fresh_link() -> LinkView {
    LinkView { outgoing: Seq::empty(), incoming: Seq::empty(), connected: true }
}

/// Sending `command`: recorded when connected, refused otherwise.
pub open spec fn send_spec(link: LinkView, command: Seq<char>) -> (LinkView, Result<(), TransportError>) {
    if !link.connected {
        (link, Err(TransportError::Disconnected))
    } else {
        (LinkView { outgoing: link.outgoing.push(command), ..link }, Ok(()))
    }
}

/// Receiving: the oldest waiting response when connected, a timeout when none waits.
pub open spec fn recv_spec(link: LinkView) -> (LinkView, Result<Seq<char>, TransportError>) {
    if !link.connected {
        (link, Err(TransportError::Disconnected))
    } else if link.incoming.len() > 0 {
        (LinkView { incoming: link.incoming.drop_first(), ..link }, Ok(link.incoming[0]))
    } else {
        (link, Err(TransportError::Timeout))
    }
}

/// A response arriving: queued behind those already waiting.
pub open spec fn inject_spec(link: LinkView, response: Seq<char>) -> LinkView {
    LinkView { incoming: link.incoming.push(response), ..link }
}

pub open spec fn disconnect_spec(link: LinkView) -> LinkView {
    LinkView { connected: false, ..link }
}

/// The abstract value of a received result.
pub open spec fn received(result: Result<String, TransportError>) -> Result<Seq<char>, TransportError> {
    match result {
        Ok(s) => Ok(s@),
        Err(e) => Err(e),
    }
}

/// The abstract value of an optional string.
pub open spec fn text_of(s: Option<String>) -> Option<Seq<char>> {
    match s {
        Some(s) => Some(s@),
        None => None,
    }
}

/// The last command sent, if any.
pub open spec fn last_sent_spec(link: LinkView) -> Option<Seq<char>> {
    if link.outgoing.len() > 0 {
        Some(link.outgoing.last())
    } else {
        None
    }
}

/// Trait for sensory transport — how sense modules communicate.
pub trait SenseTransport: Send + Sync {
    /// The transport's abstract state.
    spec fn link(&self) -> LinkView;

    /// The freshness level of data from this transport.
    spec fn level(&self) -> Freshness;

    /// Send a command string to the sense module.
    fn send(&mut self, command: &str) -> (result: Result<(), TransportError>)
        ensures
            (final(self).link(), result) == send_spec(old(self).link(), command@),
            result is Ok <==> old(self).link().connected,
            old(self).link().connected ==> final(self).link().outgoing == old(self).link().outgoing.push(
                command@,
            ),
            final(self).link().incoming == old(self).link().incoming,
            final(self).link().connected == old(self).link().connected,
            final(self).level() == old(self).level(),
    ;

    /// Receive a shadow/response from the sense module, waiting up to `timeout_ms`.
    fn recv(&mut self, timeout_ms: u64) -> (result: Result<String, TransportError>)
        ensures
            (final(self).link(), received(result)) == recv_spec(old(self).link()),
            final(self).level() == old(self).level(),
    ;

    /// How fresh is data from this transport?
    fn freshness(&self) -> (level: Freshness)
        ensures
            level == self.level(),
    ;

    /// Is the transport currently connected?
    fn is_connected(&self) -> (connected: bool)
        ensures
            connected == self.link().connected,
    ;
}

/// The queues and connection flag that every transport keeps.
#[derive(Debug)]
pub(crate) struct Link {
    outgoing: Vec<String>,
    incoming: Vec<String>,
    connected: bool,
}

impl View for Link {
    type V = LinkView;

    closed spec fn view(&self) -> LinkView {
        LinkView {
            outgoing: self.outgoing@.map_values(|s: String| s@),
            incoming: self.incoming@.map_values(|s: String| s@),
            connected: self.connected,
        }
    }
}

impl Link {
    pub(crate) fn new() -> (link: Link)
        ensures
            link@ == fresh_link(),
    {
        let link = Link { outgoing: Vec::new(), incoming: Vec::new(), connected: true };
        assert(link@.outgoing =~= Seq::<Seq<char>>::empty());
        assert(link@.incoming =~= Seq::<Seq<char>>::empty());
        link
    }

    pub(crate) fn is_connected(&self) -> (connected: bool)
        ensures
            connected == self@.connected,
    {
        self.connected
    }

    /// Queue a response as if it had arrived.
    pub(crate) fn inject(&mut self, response: &str)
        ensures
            final(self)@ == inject_spec(old(self)@, response@),
    {
        self.incoming.push(response.to_owned());
        assert(self@.incoming =~= old(self)@.incoming.push(response@));
    }

    pub(crate) fn disconnect(&mut self)
        ensures
            final(self)@ == disconnect_spec(old(self)@),
    {
        self.connected = false;
    }

    /// Record a sent command.
    pub(crate) fn push_outgoing(&mut self, command: &str)
        ensures
            final(self)@ == (LinkView { outgoing: old(self)@.outgoing.push(command@), ..old(self)@ }),
    {
        self.outgoing.push(command.to_owned());
        assert(self@.outgoing =~= old(self)@.outgoing.push(command@));
    }

    /// Take the oldest waiting response, if any.
    pub(crate) fn pop_incoming(&mut self) -> (response: Option<String>)
        ensures
            old(self)@.incoming.len() > 0 ==> text_of(response) == Some(old(self)@.incoming[0])
                && final(self)@ == (LinkView { incoming: old(self)@.incoming.drop_first(), ..old(self)@ }),
            old(self)@.incoming.len() == 0 ==> response is None && final(self)@ == old(self)@,
    {
        if self.incoming.is_empty() {
            None
        } else {
            let r = self.incoming.remove(0);
            assert(self@.incoming =~= old(self)@.incoming.drop_first());
            Some(r)
        }
    }

    /// The last command sent, if any.
    pub(crate) fn last_outgoing(&self) -> (last: Option<String>)
        ensures
            text_of(last) == last_sent_spec(self@),
    {
        let n = self.outgoing.len();
        if n == 0 {
            None
        } else {
            Some(self.outgoing[n - 1].clone())
        }
    }
}

/// The state after responses arrive in the order given.
pub open spec fn inject_all(link: LinkView, responses: Seq<Seq<char>>) -> LinkView
    decreases responses.len(),
{
    if responses.len() == 0 {
        link
    } else {
        inject_spec(inject_all(link, responses.drop_last()), responses.last())
    }
}

/// Receiving `n` times in a row: the final state and the responses received.
pub open spec fn recv_all(link: LinkView, n: nat) -> (LinkView, Seq<Seq<char>>)
    decreases n,
{
    if n == 0 {
        (link, Seq::empty())
    } else {
        let (next, got) = recv_spec(link);
        let (last, rest) = recv_all(next, (n - 1) as nat);
        (
            last,
            match got {
                Ok(response) => seq![response] + rest,
                Err(_) => rest,
            },
        )
    }
}

proof fn lemma_inject_all(link: LinkView, responses: Seq<Seq<char>>)
    ensures
        inject_all(link, responses).incoming == link.incoming + responses,
        inject_all(link, responses).outgoing == link.outgoing,
        inject_all(link, responses).connected == link.connected,
    decreases responses.len(),
{
    if responses.len() > 0 {
        lemma_inject_all(link, responses.drop_last());
        assert(link.incoming + responses == (link.incoming + responses.drop_last()).push(responses.last()));
    }
}

proof fn lemma_recv_all_drains(link: LinkView)
    requires
        link.connected,
    ensures
        recv_all(link, link.incoming.len()).1 == link.incoming,
        recv_all(link, link.incoming.len()).0.incoming.len() == 0,
        recv_all(link, link.incoming.len()).0.connected,
    decreases link.incoming.len(),
{
    if link.incoming.len() > 0 {
        let next = recv_spec(link).0;
        lemma_recv_all_drains(next);
        assert(seq![link.incoming[0]] + link.incoming.drop_first() == link.incoming);
    }
}

/// Law (first in, first out): on a connected transport with no response
/// waiting, receiving as many times as responses arrived gives them back in
/// the order they arrived; after that a receive times out.
pub proof fn lemma_responses_in_order(link: LinkView, responses: Seq<Seq<char>>)
    requires
        link.connected,
        link.incoming.len() == 0,
    ensures
        recv_all(inject_all(link, responses), responses.len()).1 == responses,
        recv_spec(recv_all(inject_all(link, responses), responses.len()).0).1 == Err::<Seq<char>, TransportError>(
            TransportError::Timeout,
        ),
{
    lemma_inject_all(link, responses);
    assert(link.incoming + responses == responses);
    lemma_recv_all_drains(inject_all(link, responses));
}

/// Law: a disconnected transport refuses every send and every receive and
/// stays as it is; no operation connects it again.
pub proof fn lemma_disconnect_is_final(link: LinkView, command: Seq<char>, response: Seq<char>)
    requires
        !link.connected,
    ensures
        send_spec(link, command) == (link, Err::<(), TransportError>(TransportError::Disconnected)),
        recv_spec(link) == (link, Err::<Seq<char>, TransportError>(TransportError::Disconnected)),
        !inject_spec(link, response).connected,
        !disconnect_spec(link).connected,
{
}

/// Law: sending changes nothing that is received, and the command sent is
/// the last one recorded.
pub proof fn lemma_send_is_independent_of_recv(link: LinkView, command: Seq<char>)
    requires
        link.connected,
    ensures
        send_spec(link, command).0.incoming == link.incoming,
        recv_spec(send_spec(link, command).0).1 == recv_spec(link).1,
        last_sent_spec(send_spec(link, command).0) == Some(command),
{
}

/// The state after sending each command in turn, and how many sends succeeded.
pub open spec fn send_all(link: LinkView, commands: Seq<Seq<char>>) -> (LinkView, nat)
    decreases commands.len(),
{
    if commands.len() == 0 {
        (link, 0)
    } else {
        let (before, sent) = send_all(link, commands.drop_last());
        let (after, result) = send_spec(before, commands.last());
        (after, if result is Ok { sent + 1 } else { sent })
    }
}

/// Law: on a connected transport every send succeeds, whatever was sent
/// before (the same command again too), and the commands are recorded in the
/// order sent; nothing waiting to be received changes.
pub proof fn lemma_connected_sends_all_succeed(link: LinkView, commands: Seq<Seq<char>>)
    requires
        link.connected,
    ensures
        send_all(link, commands).1 == commands.len(),
        send_all(link, commands).0.outgoing == link.outgoing + commands,
        send_all(link, commands).0.incoming == link.incoming,
        send_all(link, commands).0.connected,
    decreases commands.len(),
{
    if commands.len() > 0 {
        lemma_connected_sends_all_succeed(link, commands.drop_last());
        assert(link.outgoing + commands == (link.outgoing + commands.drop_last()).push(commands.last()));
    }
}

/// A transport of any of the three kinds, as the factory hands them out.
#[derive(Debug)]
pub enum AnyTransport {
    InProcess(InProcessTransport),
    UnixSocket(UnixSocketTransport),
    Network(NetworkTransport),
}

impl SenseTransport for AnyTransport {
    open spec fn link(&self) -> LinkView {
        match self {
            AnyTransport::InProcess(t) => t.link(),
            AnyTransport::UnixSocket(t) => t.link(),
            AnyTransport::Network(t) => t.link(),
        }
    }

    open spec fn level(&self) -> Freshness {
        match self {
            AnyTransport::InProcess(t) => t.level(),
            AnyTransport::UnixSocket(t) => t.level(),
            AnyTransport::Network(t) => t.level(),
        }
    }

    fn send(&mut self, command: &str) -> (result: Result<(), TransportError>) {
        match self {
            AnyTransport::InProcess(t) => t.send(command),
            AnyTransport::UnixSocket(t) => t.send(command),
            AnyTransport::Network(t) => t.send(command),
        }
    }

    fn recv(&mut self, timeout_ms: u64) -> (result: Result<String, TransportError>) {
        match self {
            AnyTransport::InProcess(t) => t.recv(timeout_ms),
            AnyTransport::UnixSocket(t) => t.recv(timeout_ms),
            AnyTransport::Network(t) => t.recv(timeout_ms),
        }
    }

    fn freshness(&self) -> (level: Freshness) {
        match self {
            AnyTransport::InProcess(t) => t.freshness(),
            AnyTransport::UnixSocket(t) => t.freshness(),
            AnyTransport::Network(t) => t.freshness(),
        }
    }

    fn is_connected(&self) -> (connected: bool) {
        match self {
            AnyTransport::InProcess(t) => t.is_connected(),
            AnyTransport::UnixSocket(t) => t.is_connected(),
            AnyTransport::Network(t) => t.is_connected(),
        }
    }
}

/// Factory for creating transports.
pub struct Transport;

impl Transport {
    /// Create an in-process transport.
    pub fn in_process() -> (transport: AnyTransport)
        ensures
            transport is InProcess,
            transport.link() == fresh_link(),
    {
        AnyTransport::InProcess(InProcessTransport::new())
    }

    /// Create a Unix socket transport (simulated).
    pub fn unix_socket(path: &str) -> (transport: AnyTransport)
        ensures
            (transport matches AnyTransport::UnixSocket(t) && t.path() == path@),
            transport.link() == fresh_link(),
    {
        AnyTransport::UnixSocket(UnixSocketTransport::new(path))
    }

    /// Create a TCP-based network transport (simulated).
    pub fn tcp(addr: &str) -> (transport: AnyTransport)
        ensures
            (transport matches AnyTransport::Network(t) && t.addr() == addr@),
            transport.link() == fresh_link(),
    {
        AnyTransport::Network(NetworkTransport::new(addr))
    }
}

} // verus!
