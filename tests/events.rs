use bevy_replicon::channels::{ChannelKind, NetworkChannels, SendPolicy, DEFAULT_RESEND_MS};
use bevy_replicon::entity_map::{MapError, NetworkEntityMap};
use bevy_replicon::events::{
    local_client_events, local_resend, loops_back, network_send, recipients, FromClient,
    NetworkSend, SendMode, ToClients, SERVER_ID,
};

#[test]
fn direct_to_self_loops_back_once_and_stays_off_the_wire() {
    let mode = SendMode::Direct(SERVER_ID);
    assert_eq!(network_send(mode), NetworkSend::Nothing);
    assert!(recipients(mode, &vec![3, 5, 9]).is_empty());
    let mut pending = vec![ToClients { mode, event: 42u32 }];
    let local = local_resend(&mut pending);
    assert_eq!(local, vec![42]);
    assert!(pending.is_empty());
}

#[test]
fn broadcast_except_skips_the_excluded_client() {
    let mode = SendMode::BroadcastExcept(5);
    assert_eq!(network_send(mode), NetworkSend::BroadcastExcept(5));
    assert_eq!(recipients(mode, &vec![3, 5, 9]), vec![3, 9]);
    assert!(loops_back(mode));
}

#[test]
fn broadcast_except_self_is_a_plain_broadcast_without_loop_back() {
    let mode = SendMode::BroadcastExcept(SERVER_ID);
    assert_eq!(network_send(mode), NetworkSend::Broadcast);
    assert_eq!(recipients(mode, &vec![3, 5, 9]), vec![3, 5, 9]);
    assert!(!loops_back(mode));
}

#[test]
fn broadcast_reaches_everyone_and_loops_back() {
    assert_eq!(recipients(SendMode::Broadcast, &vec![3, 5, 9]), vec![3, 5, 9]);
    assert!(loops_back(SendMode::Broadcast));
    assert!(recipients(SendMode::Broadcast, &vec![]).is_empty());
}

#[test]
fn direct_to_remote_client_reaches_only_it() {
    let mode = SendMode::Direct(9);
    assert_eq!(network_send(mode), NetworkSend::Direct(9));
    assert_eq!(recipients(mode, &vec![3, 5, 9]), vec![9]);
    assert!(!loops_back(mode));
}

#[test]
fn local_resend_keeps_order_and_filters() {
    let mut pending = vec![
        ToClients { mode: SendMode::Broadcast, event: 1u8 },
        ToClients { mode: SendMode::Direct(4), event: 2 },
        ToClients { mode: SendMode::BroadcastExcept(4), event: 3 },
        ToClients { mode: SendMode::BroadcastExcept(SERVER_ID), event: 4 },
        ToClients { mode: SendMode::Direct(SERVER_ID), event: 5 },
    ];
    assert_eq!(local_resend(&mut pending), vec![1, 3, 5]);
    assert!(pending.is_empty());
}

#[test]
fn channels_are_numbered_in_registration_order() {
    let mut channels = NetworkChannels::new();
    assert_eq!(channels.create_server_channel(SendPolicy::Ordered.channel_kind()), Some(1));
    assert_eq!(channels.create_server_channel(SendPolicy::Unreliable.channel_kind()), Some(2));
    assert_eq!(channels.create_client_channel(SendPolicy::Unordered.channel_kind()), Some(1));
    assert_eq!(
        channels.server_channels(),
        vec![
            ChannelKind::Unreliable,
            ChannelKind::ReliableOrdered { resend_ms: DEFAULT_RESEND_MS },
            ChannelKind::Unreliable,
        ]
    );
    assert_eq!(
        channels.client_channels(),
        vec![ChannelKind::Unreliable, ChannelKind::ReliableUnordered { resend_ms: 300 }]
    );
}

#[test]
fn channel_ids_run_out_after_a_byte() {
    let mut channels = NetworkChannels::new();
    for expected in 1..256u32 {
        assert_eq!(
            channels.create_server_channel(ChannelKind::Unreliable),
            Some(expected as u8)
        );
    }
    assert_eq!(channels.create_server_channel(ChannelKind::Unreliable), None);
    assert_eq!(channels.server_channels().len(), 256);
}

#[test]
fn identity_map_resolves_translates_and_releases() {
    let mut map = NetworkEntityMap::new();
    let a = map.resolve(7).unwrap();
    let b = map.resolve(8).unwrap();
    assert_ne!(a, b);
    assert_eq!(map.resolve(7), Some(a));
    assert_eq!(map.translate(7), Some(a));
    assert_eq!(map.to_server(a), Some(7));
    assert_eq!(map.to_server(b), Some(8));
    assert_eq!(map.len(), 2);
    assert_eq!(map.release(7), Some(a));
    assert_eq!(map.translate(7), None);
    assert_eq!(map.to_server(a), None);
    assert_eq!(map.release(7), None);
    assert_eq!(map.translate(8), Some(b));
    let c = map.resolve(7).unwrap();
    assert_ne!(c, a);
    assert_ne!(c, b);
}

#[test]
fn event_references_map_or_fail_on_first_unknown() {
    let mut map = NetworkEntityMap::new();
    let a = map.resolve(10).unwrap();
    let b = map.resolve(20).unwrap();
    assert_eq!(map.map_to_client(&vec![20, 10, 20]), Ok(vec![b, a, b]));
    assert_eq!(map.map_to_client(&vec![]), Ok(vec![]));
    assert_eq!(map.map_to_client(&vec![10, 30, 40]), Err(MapError(30)));
}

#[test]
fn authority_client_events_come_from_the_local_session() {
    let mut raised = vec!['a', 'b'];
    let received = local_client_events(&mut raised);
    assert!(raised.is_empty());
    assert_eq!(received.len(), 2);
    assert!(matches!(received[0], FromClient { client_id: SERVER_ID, event: 'a' }));
    assert!(matches!(received[1], FromClient { client_id: SERVER_ID, event: 'b' }));
    let mut none: Vec<u8> = vec![];
    assert!(local_client_events(&mut none).is_empty());
}
