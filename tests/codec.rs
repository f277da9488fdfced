use bevy_replicon::codec::{
    decode_envelope, encode_envelope, read_u32, read_u64, write_u32, write_u64,
};
use bevy_replicon::decode::decode_diff;
use bevy_replicon::differ::{compute_diff, EntityUpdate, WorldDiff};
use bevy_replicon::codec::encode_diff;
use bevy_replicon::events::SendMode;
use bevy_replicon::replica::{ClientReplica, ReceiveError};
use bevy_replicon::world::{ComponentValue, EntityState, WorldState};

#[test]
fn integers_are_little_endian_fixed_width() {
    let mut out = vec![0xAA];
    write_u32(&mut out, 0x0102_0304);
    write_u64(&mut out, 0x1122_3344_5566_7788);
    assert_eq!(
        out,
        vec![0xAA, 4, 3, 2, 1, 0x88, 0x77, 0x66, 0x55, 0x44, 0x33, 0x22, 0x11]
    );
    assert_eq!(read_u32(&out, 1), Some(0x0102_0304));
    assert_eq!(read_u64(&out, 5), Some(0x1122_3344_5566_7788));
    assert_eq!(read_u64(&out, 6), None);
    assert_eq!(read_u32(&out, 10), None);
    assert_eq!(read_u32(&out, 20), None);
}

#[test]
fn envelope_layout_per_mode() {
    let payload = vec![9, 8];
    assert_eq!(encode_envelope(SendMode::Broadcast, &payload), vec![0, 0, 0, 0, 9, 8]);
    assert_eq!(
        encode_envelope(SendMode::BroadcastExcept(5), &payload),
        vec![1, 0, 0, 0, 5, 0, 0, 0, 0, 0, 0, 0, 9, 8]
    );
    assert_eq!(
        encode_envelope(SendMode::Direct(0x0102), &vec![]),
        vec![2, 0, 0, 0, 2, 1, 0, 0, 0, 0, 0, 0]
    );
}

#[test]
fn envelope_round_trip() {
    for mode in [SendMode::Broadcast, SendMode::BroadcastExcept(7), SendMode::Direct(u64::MAX)] {
        let payload = vec![1, 2, 3, 4, 5];
        let bytes = encode_envelope(mode, &payload);
        assert_eq!(decode_envelope(&bytes), Some((mode, payload)));
    }
}

#[test]
fn malformed_envelopes_are_rejected() {
    assert_eq!(decode_envelope(&vec![]), None);
    assert_eq!(decode_envelope(&vec![0, 0, 0]), None);
    assert_eq!(decode_envelope(&vec![3, 0, 0, 0, 1]), None);
    assert_eq!(decode_envelope(&vec![2, 0, 0, 0, 1, 2, 3]), None);
    assert_eq!(decode_envelope(&vec![0, 0, 0, 0]), Some((SendMode::Broadcast, vec![])));
}

fn spawn_diff() -> WorldDiff {
    let s = WorldState {
        entities: vec![EntityState {
            id: 7,
            components: vec![ComponentValue { kind: 1, data: vec![0, 0] }],
        }],
    };
    compute_diff(None, 0, &s, 1)
}

#[test]
fn diff_layout_is_fixed_width() {
    let bytes = encode_diff(&spawn_diff());
    let expected: Vec<u8> = [
        vec![1, 0, 0, 0, 0, 0, 0, 0],
        vec![1],
        vec![0, 0, 0, 0, 0, 0, 0, 0],
        vec![1, 0, 0, 0, 0, 0, 0, 0],
        vec![7, 0, 0, 0, 0, 0, 0, 0],
        vec![1, 0, 0, 0, 0, 0, 0, 0],
        vec![1, 0, 0, 0],
        vec![2, 0, 0, 0, 0, 0, 0, 0],
        vec![0, 0],
        vec![0, 0, 0, 0, 0, 0, 0, 0],
        vec![0, 0, 0, 0, 0, 0, 0, 0],
    ]
    .concat();
    assert_eq!(bytes, expected);
}

#[test]
fn diff_round_trip() {
    let d = WorldDiff {
        tick: 42,
        full: false,
        baseline_tick: 41,
        spawns: vec![EntityState {
            id: 3,
            components: vec![
                ComponentValue { kind: 1, data: vec![1, 2, 3] },
                ComponentValue { kind: 2, data: vec![] },
            ],
        }],
        updates: vec![EntityUpdate {
            id: 9,
            changed: vec![ComponentValue { kind: 5, data: vec![0xFF] }],
            removed: vec![6, 7],
        }],
        despawns: vec![11, 12],
    };
    let back = decode_diff(&encode_diff(&d)).expect("an encoded diff decodes");
    assert_eq!(back.tick, 42);
    assert!(!back.full);
    assert_eq!(back.baseline_tick, 41);
    assert_eq!(back.spawns.len(), 1);
    assert_eq!(back.spawns[0].id, 3);
    assert_eq!(back.spawns[0].components.len(), 2);
    assert_eq!(back.spawns[0].components[0].kind, 1);
    assert_eq!(back.spawns[0].components[0].data, vec![1, 2, 3]);
    assert_eq!(back.spawns[0].components[1].kind, 2);
    assert!(back.spawns[0].components[1].data.is_empty());
    assert_eq!(back.updates.len(), 1);
    assert_eq!(back.updates[0].id, 9);
    assert_eq!(back.updates[0].changed[0].kind, 5);
    assert_eq!(back.updates[0].changed[0].data, vec![0xFF]);
    assert_eq!(back.updates[0].removed, vec![6, 7]);
    assert_eq!(back.despawns, vec![11, 12]);
}

#[test]
fn malformed_diffs_are_rejected() {
    let bytes = encode_diff(&spawn_diff());
    assert!(decode_diff(&bytes[..bytes.len() - 1].to_vec()).is_none());
    let mut trailing = bytes.clone();
    trailing.push(0);
    assert!(decode_diff(&trailing).is_none());
    let mut bad_flag = bytes.clone();
    bad_flag[8] = 2;
    assert!(decode_diff(&bad_flag).is_none());
    assert!(decode_diff(&vec![]).is_none());
}

#[test]
fn client_takes_in_diff_bytes() {
    let mut client = ClientReplica::new();
    assert_eq!(client.receive_bytes(&vec![1, 2, 3]), Err(ReceiveError::Malformed));
    assert_eq!(client.last_tick, None);
    assert_eq!(client.receive_bytes(&encode_diff(&spawn_diff())), Ok(()));
    assert_eq!(client.world.component(7, 1), Some(vec![0, 0]));
    assert!(client.entity_map.translate(7).is_some());
}
