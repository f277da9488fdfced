//! Routing of server events: which clients a `ToClients` event reaches over
//! the network and whether it is also delivered locally.
use vstd::prelude::*;

verus! {

/// Client id under which the authority session (a server that also plays,
/// or a single-player session) takes part.
pub const SERVER_ID: u64 = 0;

/// Type of server message sending.
#[derive(Clone, Copy, Debug, PartialEq, Eq, Structural)]
pub enum SendMode {
    Broadcast,
    BroadcastExcept(u64),
    Direct(u64),
}

/// An event that will be sent to client(s).
#[derive(Clone, Copy, Debug)]
pub struct ToClients<T> {
    pub mode: SendMode,
    pub event: T,
}

/// The call that puts one server event on the transport.
#[derive(Clone, Copy, Debug, PartialEq, Eq, Structural)]
pub enum NetworkSend {
    Nothing,
    Broadcast,
    BroadcastExcept(u64),
    Direct(u64),
}

pub open spec fn network_send_spec(mode: SendMode) -> NetworkSend {
    match mode {
        SendMode::Broadcast => NetworkSend::Broadcast,
        SendMode::BroadcastExcept(c) => if c == SERVER_ID {
            NetworkSend::Broadcast
        } else {
            NetworkSend::BroadcastExcept(c)
        },
        SendMode::Direct(c) => if c == SERVER_ID {
            NetworkSend::Nothing
        } else {
            NetworkSend::Direct(c)
        },
    }
}

/// Whether an event sent with `mode` is also delivered to the local session.
pub open spec fn loops_back_spec(mode: SendMode) -> bool {
    match mode {
        SendMode::Broadcast => true,
        SendMode::BroadcastExcept(c) => c != SERVER_ID,
        SendMode::Direct(c) => c == SERVER_ID,
    }
}

/// Whether the transport call `send` delivers to the connected client `c`.
pub open spec fn reaches(send: NetworkSend, c: u64) -> bool {
    match send {
        NetworkSend::Nothing => false,
        NetworkSend::Broadcast => true,
        NetworkSend::BroadcastExcept(e) => c != e,
        NetworkSend::Direct(d) => c == d,
    }
}

/// The connected clients that `send` reaches, in the order given.
pub open spec fn reached(send: NetworkSend, connected: Seq<u64>) -> Seq<u64>
    decreases connected.len(),
{
    if connected.len() == 0 {
        Seq::empty()
    } else {
        let prev = reached(send, connected.drop_last());
        if reaches(send, connected.last()) {
            prev.push(connected.last())
        } else {
            prev
        }
    }
}

/// The payloads of the events that loop back, in order.
pub open spec fn looped_back<T>(events: Seq<ToClients<T>>) -> Seq<T>
    decreases events.len(),
{
    if events.len() == 0 {
        Seq::empty()
    } else {
        let rest = looped_back(events.drop_first());
        if loops_back_spec(events[0].mode) {
            seq![events[0].event] + rest
        } else {
            rest
        }
    }
}

/// The transport call for an event sent with `mode`. An event addressed
/// directly to the local session is never put on the wire, and excluding the
/// local session from a broadcast leaves a plain broadcast.
pub fn network_send(mode: SendMode) -> (r: NetworkSend)
    ensures
        r == network_send_spec(mode),
{
    match mode {
        SendMode::Broadcast => NetworkSend::Broadcast,
        SendMode::BroadcastExcept(c) => if c == SERVER_ID {
            NetworkSend::Broadcast
        } else {
            NetworkSend::BroadcastExcept(c)
        },
        SendMode::Direct(c) => if c == SERVER_ID {
            NetworkSend::Nothing
        } else {
            NetworkSend::Direct(c)
        },
    }
}

/// Whether an event sent with `mode` is delivered to the local session.
pub fn loops_back(mode: SendMode) -> (r: bool)
    ensures
        r == loops_back_spec(mode),
{
    match mode {
        SendMode::Broadcast => true,
        SendMode::BroadcastExcept(c) => c != SERVER_ID,
        SendMode::Direct(c) => c == SERVER_ID,
    }
}

/// The clients among `connected` that an event sent with `mode` is
/// transmitted to.
pub fn recipients(mode: SendMode, connected: &Vec<u64>) -> (r: Vec<u64>)
    ensures
        r@ == reached(network_send_spec(mode), connected@),
{
    let send = network_send(mode);
    let mut r: Vec<u64> = Vec::new();
    let mut i: usize = 0;
    while i < connected.len()
        invariant
            i <= connected@.len(),
            send == network_send_spec(mode),
            r@ == reached(send, connected@.subrange(0, i as int)),
        decreases connected@.len() - i,
    {
        let c = connected[i];
        assert(connected@.subrange(0, i + 1).drop_last() =~= connected@.subrange(0, i as int));
        let hit = match send {
            NetworkSend::Nothing => false,
            NetworkSend::Broadcast => true,
            NetworkSend::BroadcastExcept(e) => c != e,
            NetworkSend::Direct(d) => c == d,
        };
        if hit {
            r.push(c);
        }
        i = i + 1;
    }
    assert(connected@.subrange(0, connected@.len() as int) =~= connected@);
    r
}

/// Takes every pending server event out of `events` and returns, in order,
/// the payloads to deliver to the local session.
pub fn local_resend<T>(events: &mut Vec<ToClients<T>>) -> (r: Vec<T>)
    ensures
        final(events)@.len() == 0,
        r@ == looped_back(old(events)@),
{
    let ghost all = events@;
    let mut r: Vec<T> = Vec::new();
    while events.len() > 0
        invariant
            looped_back(all) == r@ + looped_back(events@),
        decreases events@.len(),
    {
        let ghost before = events@;
        let ToClients { mode, event } = events.remove(0);
        assert(events@ =~= before.drop_first());
        if loops_back(mode) {
            r.push(event);
            assert(r@ + looped_back(events@) =~= (r@.drop_last() + (seq![event] + looped_back(
                events@,
            ))));
        }
    }
    assert(r@ + Seq::<T>::empty() =~= r@);
    r
}

/// A client event as the server sees it: the sender and the event.
#[derive(Clone, Copy, Debug)]
pub struct FromClient<T> {
    pub client_id: u64,
    pub event: T,
}

/// Events raised by the authority session itself, wrapped as if the local
/// session had sent them, in order.
pub open spec fn from_local<T>(events: Seq<T>) -> Seq<FromClient<T>> {
    events.map_values(|e: T| FromClient { client_id: SERVER_ID, event: e })
}

/// Takes the client events raised by the authority session out of `events`
/// and returns them as received from the local session.
pub fn local_client_events<T>(events: &mut Vec<T>) -> (r: Vec<FromClient<T>>)
    ensures
        final(events)@.len() == 0,
        r@ == from_local(old(events)@),
{
    let ghost all = events@;
    let mut r: Vec<FromClient<T>> = Vec::new();
    while events.len() > 0
        invariant
            all == old(events)@,
            r@.len() + events@.len() == all.len(),
            r@ == from_local(all.subrange(0, r@.len() as int)),
            events@ == all.subrange(r@.len() as int, all.len() as int),
        decreases events@.len(),
    {
        let e = events.remove(0);
        r.push(FromClient { client_id: SERVER_ID, event: e });
        assert(r@ =~= from_local(all.subrange(0, r@.len() as int)));
        assert(events@ =~= all.subrange(r@.len() as int, all.len() as int));
    }
    assert(all.subrange(0, all.len() as int) =~= all);
    r
}

} // verus!
