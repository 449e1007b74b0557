//! The synchronous core of a client connection: its lifecycle state, its open
//! channels, and the default channel, together with the decisions that gate
//! sending and receiving.
//!
//! The transport itself (sockets, streams, serialisation) is an outside
//! collaborator; this core only decides, for each operation, whether it may
//! proceed and on which channel, and keeps the channel registry consistent.

use vstd::prelude::*;

verus! {

/// Identity of one connection.
pub type ConnectionId = u64;

/// Identity of one channel of a connection.
pub type ChannelId = u64;

/// Event raised when the client just connected to the server.
pub struct ConnectionEvent {
    pub id: ConnectionId,
}

/// Event raised when the client is considered disconnected from the server.
pub struct ConnectionLostEvent {
    pub id: ConnectionId,
}

/// Current state of a client connection.
#[derive(Clone, Copy, PartialEq, Eq, Structural)]
pub enum ConnectionState {
    Connecting,
    Connected,
    Disconnected,
}

/// Why an operation on the connection was refused.
pub enum ConnectionError {
    /// The connection is closed; nothing can be sent or received.
    ConnectionClosed,
    /// The connection was already closed when it was closed again.
    ConnectionAlreadyClosed,
    /// No default channel was set.
    NoDefaultChannel,
    /// The channel is not open on this connection.
    UnknownChannel(ChannelId),
}

/// The bookkeeping core of one client connection.
pub struct Connection {
    pub state: ConnectionState,
    /// The channels currently open, each id at most once.
    pub channels: Vec<ChannelId>,
    /// The channel used when none is named.
    pub default_channel: Option<ChannelId>,
}

impl Connection {
    /// Open channels are unique. The default channel is any id the caller
    /// stored; it need not be open, and a send on a stale default is refused
    /// like any send on an unknown channel.
    pub open spec fn wf(self) -> bool {
        forall|i: int, j: int|
            0 <= i < j < self.channels@.len() ==> (#[trigger] self.channels@[i]) != (
            #[trigger] self.channels@[j])
    }

    /// A fresh connection: still connecting, no channels.
    pub fn new() -> (c: Connection)
        ensures
            c.wf(),
            c.state == ConnectionState::Connecting,
            c.channels@.len() == 0,
            (c.default_channel is None),
    {
        Connection { state: ConnectionState::Connecting, channels: Vec::new(), default_channel: None }
    }

    /// Marks the connection as connected, once the transport reports it.
    pub fn mark_connected(&mut self)
        requires
            old(self).wf(),
        ensures
            final(self).wf(),
            final(self).state == ConnectionState::Connected,
            final(self).channels == old(self).channels,
            final(self).default_channel == old(self).default_channel,
    {
        self.state = ConnectionState::Connected;
    }

    /// Whether the transport is up.
    pub fn is_connected(&self) -> (r: bool)
        ensures
            r == (self.state == ConnectionState::Connected),
    {
        match self.state {
            ConnectionState::Connected => true,
            _ => false,
        }
    }

    /// Closes the connection. Returns whether it was open before, so the
    /// caller can tell a repeated close apart and signal the transport once.
    pub fn disconnect(&mut self) -> (was_open: bool)
        requires
            old(self).wf(),
        ensures
            final(self).wf(),
            final(self).state == ConnectionState::Disconnected,
            was_open == (old(self).state != ConnectionState::Disconnected),
            final(self).channels == old(self).channels,
            final(self).default_channel == old(self).default_channel,
    {
        let was_open = match self.state {
            ConnectionState::Disconnected => false,
            _ => true,
        };
        self.state = ConnectionState::Disconnected;
        was_open
    }

    /// Whether `channel_id` is open.
    pub fn has_channel(&self, channel_id: ChannelId) -> (r: bool)
        ensures
            r == self.channels@.contains(channel_id),
    {
        let mut i: usize = 0;
        while i < self.channels.len()
            invariant
                i <= self.channels@.len(),
                forall|k: int| 0 <= k < i ==> self.channels@[k] != channel_id,
            decreases self.channels@.len() - i,
        {
            if self.channels[i] == channel_id {
                return true;
            }
            i = i + 1;
        }
        false
    }

    /// Opens the channel under the given id. Opening an open channel is a
    /// no-op; the first channel ever opened becomes the default.
    pub fn open_channel(&mut self, channel_id: ChannelId)
        requires
            old(self).wf(),
        ensures
            final(self).wf(),
            final(self).channels@.contains(channel_id),
            old(self).channels@.contains(channel_id) ==> *final(self) == *old(self),
            !old(self).channels@.contains(channel_id) ==> final(self).channels@ == old(
                self,
            ).channels@.push(channel_id),
            final(self).default_channel == (if !old(self).channels@.contains(channel_id) && old(
                self,
            ).default_channel is None {
                Some(channel_id)
            } else {
                old(self).default_channel
            }),
            final(self).state == old(self).state,
    {
        if self.has_channel(channel_id) {
            return ;
        }
        let ghost before = self.channels@;
        self.channels.push(channel_id);
        if self.default_channel.is_none() {
            self.default_channel = Some(channel_id);
        }
        proof {
            assert(self.channels@.last() == channel_id);
            assert(self.channels@.contains(channel_id));
            assert forall|i: int, j: int|
                0 <= i < j < self.channels@.len() implies (#[trigger] self.channels@[i]) != (
            #[trigger] self.channels@[j]) by {
                if j == self.channels@.len() - 1 {
                    assert(self.channels@[i] == before[i]);
                    if self.channels@[i] == channel_id {
                        assert(before.contains(channel_id));
                    }
                } else {
                    assert(self.channels@[i] == before[i] && self.channels@[j] == before[j]);
                }
            }
        }
    }

    /// Closes the channel. No message can be sent on it afterwards; if it was
    /// the default channel, the default becomes unset.
    #[verifier::loop_isolation(false)]
    pub fn close_channel(&mut self, channel_id: ChannelId) -> (r: Result<(), ConnectionError>)
        requires
            old(self).wf(),
        ensures
            final(self).wf(),
            (r is Ok) <==> old(self).channels@.contains(channel_id),
            !final(self).channels@.contains(channel_id),
            (r is Err) ==> *final(self) == *old(self) && (exists|e: ConnectionError|
                r == Result::<(), ConnectionError>::Err(e) && e == ConnectionError::UnknownChannel(
                    channel_id,
                )),
            (r is Ok) ==> forall|c: ChannelId|
                c != channel_id ==> (#[trigger] final(self).channels@.contains(c)) == old(
                    self,
                ).channels@.contains(c),
            final(self).default_channel == (if old(self).channels@.contains(channel_id) && old(
                self,
            ).default_channel == Some(channel_id) {
                Option::<ChannelId>::None
            } else {
                old(self).default_channel
            }),
            final(self).state == old(self).state,
    {
        let mut i: usize = 0;
        let n = self.channels.len();
        while i < n
            invariant
                i <= n,
                *self == *old(self),
                n == self.channels@.len(),
                forall|k: int| 0 <= k < i ==> self.channels@[k] != channel_id,
            decreases n - i,
        {
            if self.channels[i] == channel_id {
                let ghost before = self.channels@;
                self.channels.remove(i);
                proof {
                    before.remove_ensures(i as int);
                }
                if self.default_channel.is_some() {
                    let d = match self.default_channel {
                        Some(d) => d,
                        None => {
                            proof {
                                assert(false);
                            }
                            0
                        },
                    };
                    if d == channel_id {
                        self.default_channel = None;
                    }
                }
                proof {
                    assert forall|c: ChannelId|
                        c != channel_id implies (#[trigger] self.channels@.contains(c))
                        == before.contains(c) by {
                        if self.channels@.contains(c) {
                            let k = choose|k: int|
                                0 <= k < self.channels@.len() && self.channels@[k] == c;
                            if k < i {
                                assert(before[k] == c);
                            } else {
                                assert(before[k + 1] == c);
                            }
                        }
                        if before.contains(c) {
                            let k = choose|k: int| 0 <= k < before.len() && before[k] == c;
                            if k < i {
                                assert(self.channels@[k] == c);
                            } else if k > i {
                                assert(self.channels@[k - 1] == c);
                            }
                        }
                    }
                    assert(!self.channels@.contains(channel_id)) by {
                        if self.channels@.contains(channel_id) {
                            let k = choose|k: int|
                                0 <= k < self.channels@.len() && self.channels@[k] == channel_id;
                            if k < i {
                            } else {
                                assert(before[k + 1] == channel_id);
                            }
                        }
                    }
                }
                proof {
                    assert forall|i2: int, j2: int|
                        0 <= i2 < j2 < self.channels@.len() implies (
                    #[trigger] self.channels@[i2]) != (#[trigger] self.channels@[j2]) by {
                        let bi = if i2 < i { i2 } else { i2 + 1 };
                        let bj = if j2 < i { j2 } else { j2 + 1 };
                        assert(self.channels@[i2] == before[bi]);
                        assert(self.channels@[j2] == before[bj]);
                    }
                }
                return Ok(());
            }
            i = i + 1;
        }
        proof {
            assert(!self.channels@.contains(channel_id)) by {
                if self.channels@.contains(channel_id) {
                    let k = choose|k: int|
                        0 <= k < self.channels@.len() && self.channels@[k] == channel_id;
                }
            }
        }
        Err(ConnectionError::UnknownChannel(channel_id))
    }

    /// Sets the default channel. Any id is stored, open or not; a send on a
    /// default that is not open is refused at send time.
    pub fn set_default_channel(&mut self, channel_id: ChannelId)
        requires
            old(self).wf(),
        ensures
            final(self).wf(),
            final(self).default_channel == Some(channel_id),
            final(self).channels == old(self).channels,
            final(self).state == old(self).state,
    {
        self.default_channel = Some(channel_id);
    }

    /// Gets the default channel id.
    pub fn get_default_channel(&self) -> (r: Option<ChannelId>)
        ensures
            r == self.default_channel,
    {
        self.default_channel
    }

    /// Decides whether a payload may be sent on the named channel: refused
    /// exactly when the connection is closed, or when the channel is not
    /// open.
    pub fn resolve_send_on(&self, channel_id: ChannelId) -> (r: Result<ChannelId, ConnectionError>)
        requires
            self.wf(),
        ensures
            (r == Result::<ChannelId, ConnectionError>::Ok(channel_id)) <==> (self.state
                != ConnectionState::Disconnected && self.channels@.contains(channel_id)),
            self.state == ConnectionState::Disconnected ==> r
                == Result::<ChannelId, ConnectionError>::Err(ConnectionError::ConnectionClosed),
            (self.state != ConnectionState::Disconnected && !self.channels@.contains(channel_id))
                ==> r == Result::<ChannelId, ConnectionError>::Err(
                ConnectionError::UnknownChannel(channel_id),
            ),
    {
        match self.state {
            ConnectionState::Disconnected => Err(ConnectionError::ConnectionClosed),
            _ => {
                if self.has_channel(channel_id) {
                    Ok(channel_id)
                } else {
                    Err(ConnectionError::UnknownChannel(channel_id))
                }
            },
        }
    }

    /// Decides whether a payload may be sent on the default channel: refused
    /// exactly when no default is set, when the connection is closed, or when
    /// the default channel is not open.
    pub fn resolve_send(&self) -> (r: Result<ChannelId, ConnectionError>)
        requires
            self.wf(),
        ensures
            match self.default_channel {
                Some(c) => {
                    &&& (r == Result::<ChannelId, ConnectionError>::Ok(c)) <==> (self.state
                        != ConnectionState::Disconnected && self.channels@.contains(c))
                    &&& self.state == ConnectionState::Disconnected ==> r
                        == Result::<ChannelId, ConnectionError>::Err(
                        ConnectionError::ConnectionClosed,
                    )
                    &&& (self.state != ConnectionState::Disconnected
                        && !self.channels@.contains(c)) ==> r
                        == Result::<ChannelId, ConnectionError>::Err(
                        ConnectionError::UnknownChannel(c),
                    )
                },
                None => r == Result::<ChannelId, ConnectionError>::Err(
                    ConnectionError::NoDefaultChannel,
                ),
            },
    {
        match self.default_channel {
            Some(c) => self.resolve_send_on(c),
            None => Err(ConnectionError::NoDefaultChannel),
        }
    }

    /// Decides whether an incoming payload may be taken off the transport:
    /// refused exactly when the connection is closed.
    pub fn resolve_receive(&self) -> (r: Result<(), ConnectionError>)
        ensures
            (r is Ok) <==> self.state != ConnectionState::Disconnected,
            (r is Err) ==> exists|e: ConnectionError|
                r == Result::<(), ConnectionError>::Err(e) && e
                    == ConnectionError::ConnectionClosed,
    {
        match self.state {
            ConnectionState::Disconnected => Err(ConnectionError::ConnectionClosed),
            _ => Ok(()),
        }
    }
}

} // verus!
