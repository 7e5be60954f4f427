//! The session dispatcher: the per-connection state machine.
//!
//! One dispatcher owns one physical connection's lifecycle — authentication,
//! channel opens, data routing, forwarding requests, teardown — and is the
//! only component that mutates the shared [`ConnectionRegistry`]. The
//! transport collaborator drives it: each of its per-session callbacks hands
//! the dispatcher one event as plain values and performs whatever sends the
//! returned plan calls for. The dispatcher processes its own connection's
//! events strictly in arrival order; nothing here is shared between
//! connections except the registry handed in under its exclusion discipline.

use crate::auth::decision_for;
use crate::auth::parse_credential_key;
use crate::auth::parsed_key;
use crate::auth::AuthDecision;
use crate::errors::BrokerError;
use crate::forward::forward;
use crate::forward::is_forward_plan;
use crate::forward::ForwardAction;
use crate::identity::IdentityStore;
use crate::registry::conn_keys;
use crate::registry::ConnectionRegistry;
use crate::relay::copy_payload;
use crate::relay::is_relay_plan;
use crate::relay::relay;
use crate::relay::Delivery;
use vstd::prelude::*;

verus! {

/// The lifecycle of one connection.
#[derive(Clone, Copy, Debug, PartialEq, Eq, Structural)]
pub enum SessionState {
    /// Transport handshake complete; no authentication attempted yet.
    Connected,
    /// Attempts made, none accepted yet; the transport may retry.
    Authenticating,
    /// A credential was accepted; channels may open.
    Authenticated,
    /// Torn down. Terminal: no further transitions.
    Closed,
}

/// Allocates connection identifiers: process-unique, monotonically
/// increasing, one taken at each accept.
pub struct ConnectionCounter {
    next: u64,
}

impl ConnectionCounter {
    /// The id the next accepted connection will get.
    pub closed spec fn next_id(self) -> u64 {
        self.next
    }

    /// A counter for a fresh listening process.
    pub fn new() -> (c: ConnectionCounter)
        ensures
            c.next_id() == 0,
    {
        ConnectionCounter { next: 0 }
    }

    /// Takes the next connection id; ids never repeat.
    pub fn fresh_id(&mut self) -> (id: u64)
        requires
            old(self).next_id() < u64::MAX,
        ensures
            id == old(self).next_id(),
            final(self).next_id() == id + 1,
    {
        let id = self.next;
        self.next = self.next + 1;
        id
    }
}

/// What inbound data on a channel produces: the payload echoed straight back
/// to the sender's own channel by the dispatcher, plus the relay's plan for
/// every other connection's channel.
pub struct DataOutcome {
    pub echo_chan: u64,
    pub echo_payload: Vec<u8>,
    pub deliveries: Vec<Delivery>,
}

/// One connection's state machine:
/// `Connected -> Authenticating -> Authenticated -> (channels)* -> Closed`.
pub struct SessionDispatcher {
    conn: u64,
    state: SessionState,
    account: Option<u64>,
}

impl SessionDispatcher {
    /// This connection's process-unique identifier.
    pub closed spec fn conn_id(self) -> u64 {
        self.conn
    }

    /// Where in its lifecycle the connection stands.
    pub closed spec fn state(self) -> SessionState {
        self.state
    }

    /// The authenticated account, once one is.
    pub closed spec fn account(self) -> Option<u64> {
        self.account
    }

    /// An authenticated session knows its account.
    pub closed spec fn wf(self) -> bool {
        self.state == SessionState::Authenticated ==> self.account is Some
    }

    /// A dispatcher for a freshly accepted connection.
    pub fn new(conn: u64) -> (d: SessionDispatcher)
        ensures
            d.wf(),
            d.conn_id() == conn,
            d.state() == SessionState::Connected,
            d.account() is None,
    {
        SessionDispatcher { conn, state: SessionState::Connected, account: None }
    }

    /// The connection id, for the unverified edge.
    pub fn connection_id(&self) -> (id: u64)
        ensures
            id == self.conn_id(),
    {
        self.conn
    }

    /// The current state, for the unverified edge.
    pub fn current_state(&self) -> (s: SessionState)
        ensures
            s == self.state(),
    {
        self.state
    }

    /// One "offered" public-key attempt: decides exactly as
    /// [`decision_for`] says, moves to `Authenticated` on acceptance —
    /// recording the credential's account — and otherwise stays in
    /// `Authenticating`, awaiting the transport's retries.
    pub fn on_auth_offered(&mut self, store: &IdentityStore, _account_hint: &str, raw: &[u8]) -> (d:
        AuthDecision)
        requires
            old(self).wf(),
            store.wf(),
            old(self).state() == SessionState::Connected || old(self).state()
                == SessionState::Authenticating,
        ensures
            final(self).wf(),
            final(self).conn_id() == old(self).conn_id(),
            d == decision_for(*store, raw@),
            d == AuthDecision::Accept ==> final(self).state() == SessionState::Authenticated
                && final(self).account() == Some(store.account_of(parsed_key(raw@)->Some_0)),
            d != AuthDecision::Accept ==> final(self).state() == SessionState::Authenticating
                && final(self).account() == old(self).account(),
    {
        self.state = SessionState::Authenticating;
        match parse_credential_key(raw) {
            Some(key) => match store.lookup_by_credential(key.as_slice()) {
                Some(id) => {
                    self.account = Some(id);
                    self.state = SessionState::Authenticated;
                    AuthDecision::Accept
                },
                None => AuthDecision::Reject,
            },
            None => AuthDecision::Reject,
        }
    }

    /// The "final" phase attempt: the identical lookup and the identical
    /// decision as the offered phase, for the same credential.
    pub fn on_auth_final(&mut self, store: &IdentityStore, account_hint: &str, raw: &[u8]) -> (d:
        AuthDecision)
        requires
            old(self).wf(),
            store.wf(),
            old(self).state() == SessionState::Connected || old(self).state()
                == SessionState::Authenticating,
        ensures
            final(self).wf(),
            final(self).conn_id() == old(self).conn_id(),
            d == decision_for(*store, raw@),
            d == AuthDecision::Accept ==> final(self).state() == SessionState::Authenticated
                && final(self).account() == Some(store.account_of(parsed_key(raw@)->Some_0)),
            d != AuthDecision::Accept ==> final(self).state() == SessionState::Authenticating
                && final(self).account() == old(self).account(),
    {
        self.on_auth_offered(store, account_hint, raw)
    }

    /// A password attempt: unsupported by fixed policy, whatever the inputs;
    /// the connection stays authenticating.
    pub fn on_password(&mut self, _account_hint: &str, _password: &str) -> (d: AuthDecision)
        requires
            old(self).wf(),
            old(self).state() == SessionState::Connected || old(self).state()
                == SessionState::Authenticating,
        ensures
            final(self).wf(),
            final(self).conn_id() == old(self).conn_id(),
            final(self).account() == old(self).account(),
            final(self).state() == SessionState::Authenticating,
            d == AuthDecision::Unsupported,
    {
        self.state = SessionState::Authenticating;
        AuthDecision::Unsupported
    }

    /// A channel open while authenticated: registers (conn id, chan) in the
    /// shared registry and accepts the channel. A duplicate key is the
    /// invariant violation it is — reported with the registry unchanged,
    /// non-fatal to the connection.
    pub fn on_channel_open(&self, registry: &mut ConnectionRegistry, chan: u64, handle: u64) -> (r:
        Result<bool, BrokerError>)
        requires
            self.wf(),
            old(registry).wf(),
            self.state() == SessionState::Authenticated,
        ensures
            final(registry).wf(),
            match r {
                Ok(accept) => {
                    &&& accept
                    &&& !old(registry)@.dom().contains((self.conn_id(), chan))
                    &&& final(registry)@ == old(registry)@.insert((self.conn_id(), chan), handle)
                },
                Err(e) => {
                    &&& e == BrokerError::RegistryInvariantViolation
                    &&& old(registry)@.dom().contains((self.conn_id(), chan))
                    &&& final(registry)@ == old(registry)@
                },
            },
    {
        match registry.insert(self.conn, chan, handle) {
            Ok(()) => Ok(true),
            Err(e) => Err(e),
        }
    }

    /// Inbound data on one of this connection's channels: the sender's own
    /// channel gets the payload echoed straight back by the dispatcher — not
    /// through the relay — and the relay plans one delivery of the same
    /// payload to every other connection's registered channel.
    pub fn on_data(&self, registry: &ConnectionRegistry, chan: u64, data: &[u8]) -> (out:
        DataOutcome)
        requires
            self.wf(),
            registry.wf(),
            self.state() == SessionState::Authenticated,
        ensures
            out.echo_chan == chan,
            out.echo_payload@ == data@,
            is_relay_plan(registry@, self.conn_id(), data@, out.deliveries@),
    {
        DataOutcome {
            echo_chan: chan,
            echo_payload: copy_payload(data),
            deliveries: relay(registry, self.conn, data),
        }
    }

    /// A forwarding request while authenticated: plans the stub outbound
    /// channel, leaves the session state untouched, and reports success at
    /// once — the spawned task runs detached and is never awaited.
    pub fn on_forward_request(&self, address: &str, port: u32) -> (r: (bool, ForwardAction))
        requires
            self.wf(),
            self.state() == SessionState::Authenticated,
        ensures
            r.0,
            is_forward_plan(r.1),
    {
        (true, forward(address, port))
    }

    /// Teardown, on transport disconnect, explicit close, or a fatal
    /// transport fault: every channel this connection owns leaves the shared
    /// registry, and the state is terminal.
    pub fn on_disconnect(&mut self, registry: &mut ConnectionRegistry)
        requires
            old(self).wf(),
            old(registry).wf(),
            old(self).state() != SessionState::Closed,
        ensures
            final(self).wf(),
            final(registry).wf(),
            final(self).conn_id() == old(self).conn_id(),
            final(self).state() == SessionState::Closed,
            final(registry)@ == old(registry)@.remove_keys(conn_keys(old(self).conn_id())),
    {
        self.state = SessionState::Closed;
        registry.remove_connection(self.conn);
    }
}

} // verus!
