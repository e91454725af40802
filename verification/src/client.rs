//! The networked client's connection machinery: scheme-to-transport
//! selection, the outstanding-request table that correlates responses by id,
//! the routing of received frames, and the reconnect loop's state machine.
//! The transport itself (a QUIC-like or WebSocket stream) lives outside; the
//! decisions it must follow live here.
use vstd::prelude::*;

use crate::storage::str_eq;
use crate::wire::{Payload, ResponseV, WrappedV};

verus! {

/// The transports a connection URL can select.
#[derive(Clone, Copy, PartialEq, Eq, Structural, Debug)]
pub enum Transport {
    /// The QUIC-like datagram transport, scheme `bonsaidb`.
    Bonsai,
    /// Plain WebSockets, scheme `ws`.
    WebSocket,
    /// TLS WebSockets, scheme `wss`.
    SecureWebSocket,
}

/// The transport a URL scheme names, if any; an unknown scheme is an invalid
/// URL.
pub fn transport_for_scheme(scheme: &str) -> (r: Option<Transport>)
    ensures
        scheme@ == "bonsaidb"@ ==> r == Some(Transport::Bonsai),
        scheme@ == "ws"@ ==> r == Some(Transport::WebSocket),
        scheme@ == "wss"@ ==> r == Some(Transport::SecureWebSocket),
        scheme@ != "bonsaidb"@ && scheme@ != "ws"@ && scheme@ != "wss"@ ==> r is None,
{
    proof {
        reveal_strlit("bonsaidb");
        reveal_strlit("ws");
        reveal_strlit("wss");
        assert("bonsaidb"@.len() == 8);
        assert("ws"@.len() == 2);
        assert("wss"@.len() == 3);
    }
    if str_eq(scheme, "bonsaidb") {
        Some(Transport::Bonsai)
    } else if str_eq(scheme, "ws") {
        Some(Transport::WebSocket)
    } else if str_eq(scheme, "wss") {
        Some(Transport::SecureWebSocket)
    } else {
        None
    }
}

/// The port a transport uses when the URL names none.
pub fn default_port(t: Transport) -> (r: u16)
    ensures
        t == Transport::Bonsai ==> r == 5645,
        t == Transport::WebSocket ==> r == 80,
        t == Transport::SecureWebSocket ==> r == 443,
{
    match t {
        Transport::Bonsai => 5645,
        Transport::WebSocket => 80,
        Transport::SecureWebSocket => 443,
    }
}

/// The port a connection uses: the URL's explicit port, else the transport's
/// default.
pub fn effective_port(t: Transport, explicit: Option<u16>) -> (r: u16)
    ensures
        match explicit {
            Some(p) => r == p,
            None => r == (match t {
                Transport::Bonsai => 5645u16,
                Transport::WebSocket => 80u16,
                Transport::SecureWebSocket => 443u16,
            }),
        },
{
    match explicit {
        Some(p) => p,
        None => default_port(t),
    }
}

/// The outstanding-request table of one connection: the ids of requests sent
/// and not yet answered. Each id is eventually resolved with a response or a
/// disconnection error; ids are unique per connection.
#[derive(Debug)]
pub struct OutstandingRequests {
    next_id: u32,
    pending: Vec<u32>,
}

impl View for OutstandingRequests {
    type V = Seq<u32>;

    closed spec fn view(&self) -> Seq<u32> {
        self.pending@
    }
}

impl OutstandingRequests {
    /// The id the next request receives.
    pub closed spec fn spec_next_id(&self) -> u32 {
        self.next_id
    }

    /// Well-formed: pending ids are distinct and below the id counter.
    pub closed spec fn wf(&self) -> bool {
        &&& forall|a: int, b: int| 0 <= a < b < self@.len() ==> self@[a] != self@[b]
        &&& forall|i: int| 0 <= i < self@.len() ==> #[trigger] self@[i] < self.next_id
    }

    /// A fresh table; id 0 is a valid id and is handed out first.
    pub fn new() -> (r: OutstandingRequests)
        ensures
            r.wf(),
            r@ == Seq::<u32>::empty(),
            r.spec_next_id() == 0,
    {
        OutstandingRequests { next_id: 0, pending: Vec::new() }
    }

    /// Assigns the next request id and registers it as outstanding: fresh per
    /// connection, monotonic from zero.
    pub fn register_request(&mut self) -> (r: u32)
        requires
            old(self).wf(),
            old(self).spec_next_id() < u32::MAX,
        ensures
            final(self).wf(),
            r == old(self).spec_next_id(),
            final(self).spec_next_id() == r + 1,
            final(self)@ =~= old(self)@.push(r),
            forall|i: int| 0 <= i < old(self)@.len() ==> old(self)@[i] != r,
    {
        let id = self.next_id;
        self.next_id = self.next_id + 1;
        let ghost before = self.pending@;
        self.pending.push(id);
        proof {
            assert forall|a: int, b: int| 0 <= a < b < self@.len() implies self@[a] != self@[b]
            by {
                if b < before.len() {
                    assert(self@[a] == before[a] && self@[b] == before[b]);
                } else {
                    assert(self@[a] == before[a]);
                }
            }
        }
        id
    }

    /// Resolves an outstanding id: present exactly when some request awaits
    /// it, and then it leaves the table.
    pub fn resolve(&mut self, id: u32) -> (r: bool)
        requires old(self).wf(),
        ensures
            final(self).wf(),
            final(self).spec_next_id() == old(self).spec_next_id(),
            r <==> old(self)@.contains(id),
            r ==> exists|i: int| 0 <= i < old(self)@.len() && old(self)@[i] == id
                && final(self)@ =~= old(self)@.remove(i),
            !r ==> final(self)@ == old(self)@,
    {
        let mut i: usize = 0;
        while i < self.pending.len()
            invariant
                *self == *old(self),
                self.wf(),
                0 <= i <= self.pending@.len(),
                forall|j: int| 0 <= j < i ==> self.pending@[j] != id,
            decreases self.pending@.len() - i,
        {
            if self.pending[i] == id {
                let ghost prior = self.pending@;
                self.pending.remove(i);
                proof {
                    assert(prior == old(self)@);
                    assert(prior[i as int] == id);
                    assert(self@ =~= prior.remove(i as int));
                    prior.remove_ensures(i as int);
                    assert forall|a: int, b: int| 0 <= a < b < self@.len() implies
                        self@[a] != self@[b] by {
                        assert(self@[a] == if a < i { prior[a] } else { prior[a + 1] });
                        assert(self@[b] == if b < i { prior[b] } else { prior[b + 1] });
                    }
                    assert forall|j: int| 0 <= j < self@.len() implies
                        #[trigger] self@[j] < self.next_id by {
                        assert(self@[j] == if j < i { prior[j] } else { prior[j + 1] });
                    }
                }
                return true;
            }
            i = i + 1;
        }
        false
    }

    /// How many requests await responses.
    pub fn len(&self) -> (r: usize)
        ensures r == self@.len(),
    {
        self.pending.len()
    }
}

/// Where a received frame goes.
#[derive(Debug)]
pub enum RoutingAction {
    /// The frame answers the outstanding request with this id: pop its
    /// responder and deliver the response.
    Respond(u32),
    /// The frame carries an id no request awaits: a protocol violation.
    MissingResponder(u32),
    /// An unsolicited custom-api frame: invoke the registered callback.
    ApiCallback,
    /// An unsolicited broker delivery: enqueue onto this subscriber's queue,
    /// evicting the subscriber if its queue is gone.
    DeliverMessage { subscriber_id: u64 },
    /// Any other unsolicited frame is logged and dropped.
    Ignore,
}

/// Routes one received frame and resolves its id: a frame with an id answers
/// the outstanding request that bears it; an id-less custom-api frame goes to
/// the callback; an id-less broker delivery goes to its subscriber's queue;
/// everything else is dropped.
pub fn route_response(payload: &Payload, outstanding: &mut OutstandingRequests) -> (r:
    RoutingAction)
    requires old(outstanding).wf(),
    ensures
        final(outstanding).wf(),
        match payload.id {
            Some(request_id) => {
                if old(outstanding)@.contains(request_id) {
                    r == RoutingAction::Respond(request_id) && exists|i: int|
                        0 <= i < old(outstanding)@.len() && old(outstanding)@[i] == request_id
                        && final(outstanding)@ =~= old(outstanding)@.remove(i)
                } else {
                    r == RoutingAction::MissingResponder(request_id) && final(outstanding)@
                        == old(outstanding)@
                }
            },
            None => final(outstanding)@ == old(outstanding)@ && r == (match payload@.wrapped {
                WrappedV::Response(resp) => match resp {
                    ResponseV::Api { .. } => RoutingAction::ApiCallback,
                    ResponseV::Database(
                        crate::wire::DatabaseResponseV::MessageReceived { subscriber_id, .. },
                    ) => RoutingAction::DeliverMessage { subscriber_id },
                    _ => RoutingAction::Ignore,
                },
                WrappedV::Request(_) => RoutingAction::Ignore,
            }),
        },
{
    match payload.id {
        Some(request_id) => {
            if outstanding.resolve(request_id) {
                RoutingAction::Respond(request_id)
            } else {
                RoutingAction::MissingResponder(request_id)
            }
        },
        None => {
            match &payload.wrapped {
                crate::wire::Wrapped::Response(resp) => {
                    match resp {
                        crate::wire::Response::Api { .. } => RoutingAction::ApiCallback,
                        crate::wire::Response::Database(
                            crate::wire::DatabaseResponse::MessageReceived {
                                subscriber_id, ..
                            },
                        ) => RoutingAction::DeliverMessage { subscriber_id: *subscriber_id },
                        _ => RoutingAction::Ignore,
                    }
                },
                crate::wire::Wrapped::Request(_) => RoutingAction::Ignore,
            }
        },
    }
}

/// The protocol version this library speaks, negotiated when a session is
/// established.
pub fn current_protocol_version() -> (r: &'static str)
    ensures r@ == "bonsai/pre/0"@,
{
    "bonsai/pre/0"
}

/// Checks the protocol version a peer offers: a mismatch fails the
/// connection with a protocol-level transport error.
pub fn check_protocol_version(offered: &str) -> (r: Result<(), crate::error::Error>)
    ensures
        r is Ok <==> offered@ == "bonsai/pre/0"@,
        r is Err ==> r->Err_0 is Transport,
{
    if str_eq(offered, current_protocol_version()) {
        Ok(())
    } else {
        proof { reveal_strlit("the peer offered an unsupported protocol version"); }
        Err(crate::error::Error::Transport(
            <String as vstd::string::StringExecFns>::from_str(
                "the peer offered an unsupported protocol version",
            ),
        ))
    }
}

/// Interprets the response to a create-database request, as the networked
/// client does: the matching response shape succeeds, a wire error surfaces
/// as a `Database` error, and any other shape is `UnexpectedResponse`.
pub fn interpret_create_database_response(response: &crate::wire::Response) -> (r: Result<
    (),
    crate::error::Error,
>)
    ensures
        match response@ {
            ResponseV::Server(crate::wire::ServerResponseV::DatabaseCreated) => r is Ok,
            ResponseV::Error { .. } => r is Err && r->Err_0 is Database,
            _ => r is Err && r->Err_0 is UnexpectedResponse,
        },
{
    match response {
        crate::wire::Response::Server(crate::wire::ServerResponse::DatabaseCreated) => Ok(()),
        crate::wire::Response::Error { .. } => {
            proof { reveal_strlit("the server reported an error"); }
            Err(crate::error::Error::Database(
                <String as vstd::string::StringExecFns>::from_str(
                    "the server reported an error",
                ),
            ))
        },
        _ => Err(crate::error::Error::UnexpectedResponse),
    }
}

/// The reconnect loop's states: one worker task per client.
#[derive(Clone, Copy, PartialEq, Eq, Structural, Debug)]
pub enum ClientState {
    /// No connection: waiting for a request to trigger a connect.
    Disconnected,
    /// A connection is up and forwarding requests.
    Connected,
}

/// What the reconnect loop observes.
#[derive(Clone, Copy, PartialEq, Eq, Structural, Debug)]
pub enum ClientEvent {
    /// A pending request arrived while disconnected.
    RequestArrived,
    /// The connect attempt failed.
    ConnectFailed,
    /// The connect attempt succeeded.
    ConnectSucceeded,
    /// The transport failed while connected.
    TransportError,
    /// The request queue closed: the client was dropped.
    QueueClosed,
}

/// What the reconnect loop must do next.
#[derive(Clone, Copy, PartialEq, Eq, Structural, Debug)]
pub enum ClientAction {
    /// Block until a request arrives.
    WaitForRequest,
    /// Sleep for the current backoff, then attempt to connect, holding the
    /// pending request.
    Connect { delay_millis: u64 },
    /// Reply to the held pending request with the connect error, then wait
    /// for the next request; the request is never retried automatically.
    FailPendingRequest,
    /// Send the held pending request and start the response reader.
    SendPendingAndRead,
    /// Resolve every in-flight request with a disconnection error, then wait;
    /// nothing is resent.
    FailInFlightRequests,
    /// Exit the loop cleanly.
    Exit,
}

/// The delay the loop applies before the connect that follows one more
/// failure: it starts at 100 ms, doubles per failure, caps at 5 s, and a
/// successful connect resets it.
pub open spec fn next_backoff(b: u64) -> u64 {
    if b == 0 {
        100
    } else if b * 2 > 5000 {
        5000
    } else {
        (b * 2) as u64
    }
}

/// The reconnect loop: requests trigger connects; a failed connect answers
/// the request that triggered it with the error and the loop waits for the
/// next one; a transport error fails the in-flight requests and the loop
/// reconnects on the next request; no request is ever retried automatically.
/// Each failure backs the next connect off — 100 ms doubling to a 5 s cap,
/// reset on success — so an erroring transport is never retried in a tight
/// loop.
#[derive(Debug)]
pub struct ClientLoop {
    state: ClientState,
    backoff_millis: u64,
}

impl ClientLoop {
    /// The current state.
    pub closed spec fn spec_state(&self) -> ClientState {
        self.state
    }

    /// The delay the next connect waits for.
    pub closed spec fn spec_backoff_millis(&self) -> u64 {
        self.backoff_millis
    }

    /// Well-formed: the backoff never exceeds its cap.
    pub closed spec fn wf(&self) -> bool {
        self.backoff_millis <= 5000
    }

    /// A fresh loop, not yet connected, with no backoff.
    pub fn new() -> (r: ClientLoop)
        ensures
            r.wf(),
            r.spec_state() == ClientState::Disconnected,
            r.spec_backoff_millis() == 0,
    {
        ClientLoop { state: ClientState::Disconnected, backoff_millis: 0 }
    }

    /// One transition of the loop.
    pub fn on_event(&mut self, event: ClientEvent) -> (r: ClientAction)
        requires old(self).wf(),
        ensures
            final(self).wf(),
            ({
                let s = old(self).spec_state();
                let b = old(self).spec_backoff_millis();
                match (s, event) {
                    (ClientState::Disconnected, ClientEvent::RequestArrived) => r
                        == (ClientAction::Connect { delay_millis: b }) && final(self).spec_state()
                        == ClientState::Disconnected && final(self).spec_backoff_millis() == b,
                    (ClientState::Disconnected, ClientEvent::ConnectFailed) => r
                        == ClientAction::FailPendingRequest && final(self).spec_state()
                        == ClientState::Disconnected && final(self).spec_backoff_millis()
                        == next_backoff(b),
                    (ClientState::Disconnected, ClientEvent::ConnectSucceeded) => r
                        == ClientAction::SendPendingAndRead && final(self).spec_state()
                        == ClientState::Connected && final(self).spec_backoff_millis() == 0,
                    (ClientState::Connected, ClientEvent::TransportError) => r
                        == ClientAction::FailInFlightRequests && final(self).spec_state()
                        == ClientState::Disconnected && final(self).spec_backoff_millis()
                        == next_backoff(b),
                    (_, ClientEvent::QueueClosed) => r == ClientAction::Exit
                        && final(self).spec_state() == old(self).spec_state()
                        && final(self).spec_backoff_millis() == b,
                    _ => r == ClientAction::WaitForRequest
                        && final(self).spec_state() == old(self).spec_state()
                        && final(self).spec_backoff_millis() == b,
                }
            }),
    {
        match (self.state, event) {
            (ClientState::Disconnected, ClientEvent::RequestArrived) => ClientAction::Connect {
                delay_millis: self.backoff_millis,
            },
            (ClientState::Disconnected, ClientEvent::ConnectFailed) => {
                self.bump_backoff();
                ClientAction::FailPendingRequest
            },
            (ClientState::Disconnected, ClientEvent::ConnectSucceeded) => {
                self.state = ClientState::Connected;
                self.backoff_millis = 0;
                ClientAction::SendPendingAndRead
            },
            (ClientState::Connected, ClientEvent::TransportError) => {
                self.state = ClientState::Disconnected;
                self.bump_backoff();
                ClientAction::FailInFlightRequests
            },
            (_, ClientEvent::QueueClosed) => ClientAction::Exit,
            _ => ClientAction::WaitForRequest,
        }
    }

    /// Advances the backoff one step along its schedule.
    fn bump_backoff(&mut self)
        requires old(self).wf(),
        ensures
            final(self).wf(),
            final(self).spec_state() == old(self).spec_state(),
            final(self).spec_backoff_millis() == next_backoff(old(self).spec_backoff_millis()),
    {
        if self.backoff_millis == 0 {
            self.backoff_millis = 100;
        } else if self.backoff_millis > 2500 {
            self.backoff_millis = 5000;
        } else {
            self.backoff_millis = self.backoff_millis * 2;
        }
    }
}

} // verus!
