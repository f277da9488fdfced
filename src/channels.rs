//! Network channels: one per replication stream or registered event type,
//! numbered in order of registration, each with its delivery policy.
use vstd::prelude::*;

verus! {

/// Resend interval of the reliable policies when none is given, in
/// milliseconds.
pub const DEFAULT_RESEND_MS: u64 = 300;

/// The channel that carries world diffs from the server.
pub const REPLICATION_CHANNEL_ID: u8 = 0;

/// Most channels one direction can have: ids are single bytes.
pub const MAX_CHANNELS: usize = 256;

/// Delivery guarantees of a channel.
#[derive(Clone, Copy, Debug, PartialEq, Eq, Structural)]
pub enum SendPolicy {
    Unreliable,
    Unordered,
    Ordered,
}

/// The transport's view of a channel: its reliability and ordering, and how
/// long a reliable message waits before it is sent again.
#[derive(Clone, Copy, Debug, PartialEq, Eq, Structural)]
pub enum ChannelKind {
    Unreliable,
    ReliableUnordered { resend_ms: u64 },
    ReliableOrdered { resend_ms: u64 },
}

pub open spec fn channel_kind_spec(p: SendPolicy) -> ChannelKind {
    match p {
        SendPolicy::Unreliable => ChannelKind::Unreliable,
        SendPolicy::Unordered => ChannelKind::ReliableUnordered { resend_ms: DEFAULT_RESEND_MS },
        SendPolicy::Ordered => ChannelKind::ReliableOrdered { resend_ms: DEFAULT_RESEND_MS },
    }
}

impl SendPolicy {
    /// The channel kind of this policy, with the default resend interval.
    pub fn channel_kind(self) -> (r: ChannelKind)
        ensures
            r == channel_kind_spec(self),
    {
        match self {
            SendPolicy::Unreliable => ChannelKind::Unreliable,
            SendPolicy::Unordered => ChannelKind::ReliableUnordered { resend_ms: DEFAULT_RESEND_MS },
            SendPolicy::Ordered => ChannelKind::ReliableOrdered { resend_ms: DEFAULT_RESEND_MS },
        }
    }
}

/// The channels of both directions; a channel's id is its index.
pub struct NetworkChannels {
    server: Vec<ChannelKind>,
    client: Vec<ChannelKind>,
}

impl NetworkChannels {
    pub closed spec fn server_spec(&self) -> Seq<ChannelKind> {
        self.server@
    }

    pub closed spec fn client_spec(&self) -> Seq<ChannelKind> {
        self.client@
    }

    /// Channel 0 of each direction is taken by replication: world diffs
    /// from the server, acknowledgments from the client.
    pub fn new() -> (r: NetworkChannels)
        ensures
            r.server_spec() == seq![ChannelKind::Unreliable],
            r.client_spec() == seq![ChannelKind::Unreliable],
    {
        let mut server: Vec<ChannelKind> = Vec::new();
        server.push(ChannelKind::Unreliable);
        let mut client: Vec<ChannelKind> = Vec::new();
        client.push(ChannelKind::Unreliable);
        let r = NetworkChannels { server, client };
        assert(r.server_spec() =~= seq![ChannelKind::Unreliable]);
        assert(r.client_spec() =~= seq![ChannelKind::Unreliable]);
        r
    }

    /// Adds a server-to-client channel and returns its id, the next in
    /// order; `None` where all ids are taken.
    pub fn create_server_channel(&mut self, kind: ChannelKind) -> (r: Option<u8>)
        ensures
            old(self).server_spec().len() < MAX_CHANNELS ==> r == Some(
                old(self).server_spec().len() as u8,
            ) && final(self).server_spec() == old(self).server_spec().push(kind),
            old(self).server_spec().len() >= MAX_CHANNELS ==> r is None && final(self).server_spec()
                == old(self).server_spec(),
            final(self).client_spec() == old(self).client_spec(),
    {
        if self.server.len() >= MAX_CHANNELS {
            return None;
        }
        let id = self.server.len() as u8;
        self.server.push(kind);
        Some(id)
    }

    /// Adds a client-to-server channel and returns its id, the next in
    /// order; `None` where all ids are taken.
    pub fn create_client_channel(&mut self, kind: ChannelKind) -> (r: Option<u8>)
        ensures
            old(self).client_spec().len() < MAX_CHANNELS ==> r == Some(
                old(self).client_spec().len() as u8,
            ) && final(self).client_spec() == old(self).client_spec().push(kind),
            old(self).client_spec().len() >= MAX_CHANNELS ==> r is None && final(self).client_spec()
                == old(self).client_spec(),
            final(self).server_spec() == old(self).server_spec(),
    {
        if self.client.len() >= MAX_CHANNELS {
            return None;
        }
        let id = self.client.len() as u8;
        self.client.push(kind);
        Some(id)
    }

    /// The kinds of the server-to-client channels, by id.
    pub fn server_channels(&self) -> (r: Vec<ChannelKind>)
        ensures
            r@ == self.server_spec(),
    {
        self.server.clone()
    }

    /// The kinds of the client-to-server channels, by id.
    pub fn client_channels(&self) -> (r: Vec<ChannelKind>)
        ensures
            r@ == self.client_spec(),
    {
        self.client.clone()
    }
}

/// The channel bound to one event type.
#[derive(Clone, Copy, Debug, PartialEq, Eq, Structural)]
pub struct EventChannel {
    pub id: u8,
}

} // verus!
