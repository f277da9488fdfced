use bevy_replicon::differ::{apply_diff, compute_diff, ApplyError, EntityUpdate, WorldDiff};
use bevy_replicon::replica::{ClientReplica, ReceiveError};
use bevy_replicon::rules::ReplicationRules;
use bevy_replicon::server::{sync_sessions, ClientSession};
use bevy_replicon::world::{ComponentValue, EntityState, WorldState};

const POSITION: u32 = 1;
const VELOCITY: u32 = 2;
const HIDDEN: u32 = 3;

fn comp(kind: u32, data: &[u8]) -> ComponentValue {
    ComponentValue { kind, data: data.to_vec() }
}

fn entity(id: u64, components: Vec<ComponentValue>) -> EntityState {
    EntityState { id, components }
}

fn world(entities: Vec<EntityState>) -> WorldState {
    WorldState { entities }
}

/// Whether two worlds hold the same entities with the same components.
fn same_world(a: &WorldState, b: &WorldState) -> bool {
    let covers = |x: &WorldState, y: &WorldState| {
        x.entities.iter().all(|e| {
            y.contains_entity(e.id)
                && e.components.iter().all(|c| y.component(e.id, c.kind) == Some(c.data.clone()))
                && y.entities.iter().find(|f| f.id == e.id).unwrap().components.len()
                    == e.components.len()
        })
    };
    covers(a, b) && covers(b, a)
}

#[test]
fn spawn_then_update_scenario() {
    let s0 = world(vec![entity(7, vec![comp(POSITION, &[0, 0])])]);
    let d0 = compute_diff(None, 0, &s0, 1);
    assert!(d0.full);
    assert_eq!(d0.tick, 1);
    assert_eq!(d0.spawns.len(), 1);
    assert_eq!(d0.spawns[0].id, 7);
    assert_eq!(d0.spawns[0].components.len(), 1);
    assert_eq!(d0.spawns[0].components[0].kind, POSITION);
    assert_eq!(d0.spawns[0].components[0].data, vec![0, 0]);
    assert!(d0.updates.is_empty() && d0.despawns.is_empty());

    let mut client = ClientReplica::new();
    assert_eq!(client.receive(&d0), Ok(()));
    let local = client.entity_map.translate(7).expect("spawned entity is mapped");
    assert_eq!(client.entity_map.to_server(local), Some(7));
    assert_eq!(client.world.component(7, POSITION), Some(vec![0, 0]));

    let s1 = world(vec![entity(7, vec![comp(POSITION, &[1, 0])])]);
    let d1 = compute_diff(Some(&s0), 1, &s1, 2);
    assert!(!d1.full);
    assert!(d1.spawns.is_empty());
    assert!(d1.despawns.is_empty());
    assert_eq!(d1.updates.len(), 1);
    assert_eq!(d1.updates[0].id, 7);
    assert_eq!(d1.updates[0].changed.len(), 1);
    assert_eq!(d1.updates[0].changed[0].kind, POSITION);
    assert_eq!(d1.updates[0].changed[0].data, vec![1, 0]);
    assert!(d1.updates[0].removed.is_empty());

    assert_eq!(client.receive(&d1), Ok(()));
    assert_eq!(client.world.component(7, POSITION), Some(vec![1, 0]));
    assert_eq!(client.entity_map.translate(7), Some(local));
    assert_eq!(client.last_tick, Some(2));
}

#[test]
fn full_resync_converges_from_any_state() {
    let server = world(vec![
        entity(1, vec![comp(POSITION, &[5])]),
        entity(2, vec![comp(VELOCITY, &[6, 6])]),
    ]);
    let mut stale = world(vec![
        entity(1, vec![comp(POSITION, &[0]), comp(VELOCITY, &[1])]),
        entity(3, vec![comp(POSITION, &[9])]),
    ]);
    let d = compute_diff(None, 0, &server, 10);
    assert_eq!(apply_diff(&mut stale, &d), Ok(()));
    assert!(same_world(&stale, &server));
    assert!(!stale.contains_entity(3));
}

#[test]
fn full_resync_twice_equals_once() {
    let server = world(vec![entity(4, vec![comp(POSITION, &[1, 2, 3])])]);
    let d = compute_diff(None, 0, &server, 3);
    let mut once = world(vec![entity(9, vec![])]);
    assert_eq!(apply_diff(&mut once, &d), Ok(()));
    let mut twice = world(vec![entity(9, vec![])]);
    assert_eq!(apply_diff(&mut twice, &d), Ok(()));
    assert_eq!(apply_diff(&mut twice, &d), Ok(()));
    assert!(same_world(&once, &twice));
    assert!(same_world(&once, &server));
}

#[test]
fn delta_applied_to_baseline_gives_current() {
    let base = world(vec![
        entity(1, vec![comp(POSITION, &[0]), comp(VELOCITY, &[1])]),
        entity(2, vec![comp(POSITION, &[2])]),
        entity(3, vec![comp(POSITION, &[3])]),
    ]);
    let current = world(vec![
        entity(1, vec![comp(POSITION, &[0]), comp(HIDDEN, &[])]),
        entity(3, vec![comp(POSITION, &[3])]),
        entity(4, vec![comp(VELOCITY, &[4])]),
    ]);
    let d = compute_diff(Some(&base), 4, &current, 5);
    assert_eq!(d.spawns.len(), 1);
    assert_eq!(d.spawns[0].id, 4);
    assert_eq!(d.despawns, vec![2]);
    assert_eq!(d.updates.len(), 1);
    assert_eq!(d.updates[0].id, 1);
    assert_eq!(d.updates[0].changed.len(), 1);
    assert_eq!(d.updates[0].changed[0].kind, HIDDEN);
    assert_eq!(d.updates[0].removed, vec![VELOCITY]);
    let mut client = world(vec![
        entity(3, vec![comp(POSITION, &[3])]),
        entity(2, vec![comp(POSITION, &[2])]),
        entity(1, vec![comp(VELOCITY, &[1]), comp(POSITION, &[0])]),
    ]);
    assert_eq!(apply_diff(&mut client, &d), Ok(()));
    assert!(same_world(&client, &current));
}

#[test]
fn unchanged_world_gives_empty_delta() {
    let base = world(vec![entity(1, vec![comp(POSITION, &[0])])]);
    let current = world(vec![entity(1, vec![comp(POSITION, &[0])])]);
    let d = compute_diff(Some(&base), 7, &current, 8);
    assert_eq!(d.tick, 8);
    assert!(d.spawns.is_empty() && d.updates.is_empty() && d.despawns.is_empty());
}

#[test]
fn empty_world_gives_empty_full_diff() {
    let d = compute_diff(None, 0, &WorldState::new(), 1);
    assert!(d.full);
    assert!(d.spawns.is_empty() && d.updates.is_empty() && d.despawns.is_empty());
}

#[test]
fn update_of_unknown_entity_is_rejected() {
    let d = WorldDiff {
        tick: 2,
        full: false,
        baseline_tick: 1,
        spawns: vec![entity(6, vec![])],
        updates: vec![EntityUpdate { id: 5, changed: vec![comp(POSITION, &[1])], removed: vec![] }],
        despawns: vec![],
    };
    let mut state = world(vec![entity(4, vec![comp(POSITION, &[0])])]);
    assert_eq!(apply_diff(&mut state, &d), Err(ApplyError::UnknownEntity(5)));
    assert_eq!(state.entities.len(), 1);
    assert!(!state.contains_entity(6));
    assert_eq!(state.component(4, POSITION), Some(vec![0]));
    let mut client = ClientReplica::new();
    assert_eq!(client.receive(&compute_diff(None, 0, &WorldState::new(), 1)), Ok(()));
    assert_eq!(client.receive(&d), Err(ReceiveError::UnknownEntity(5)));
    assert!(!client.world.contains_entity(6));
    assert_eq!(client.entity_map.translate(6), None);
    assert_eq!(client.last_tick, Some(1));
}

#[test]
fn out_of_order_diffs_are_refused_and_change_nothing() {
    let s0 = world(vec![entity(7, vec![comp(POSITION, &[0])])]);
    let s1 = world(vec![entity(7, vec![comp(POSITION, &[1])])]);
    let s2 = world(vec![entity(7, vec![comp(POSITION, &[0])])]);
    let mut client = ClientReplica::new();
    // A delta needs a state to apply to.
    assert_eq!(
        client.receive(&compute_diff(Some(&s0), 1, &s1, 2)),
        Err(ReceiveError::OutOfOrder)
    );
    assert_eq!(client.receive(&compute_diff(None, 0, &s0, 1)), Ok(()));
    let id = client.entity_map.translate(7);
    assert_eq!(client.receive(&compute_diff(Some(&s0), 1, &s1, 2)), Ok(()));
    // The delta of tick 3 against tick 1 omits the component, which is back
    // to its tick-1 value; the client, at tick 2, must not take it.
    let stale_base = compute_diff(Some(&s0), 1, &s2, 3);
    assert!(stale_base.updates.is_empty());
    assert_eq!(client.receive(&stale_base), Err(ReceiveError::OutOfOrder));
    assert_eq!(client.world.component(7, POSITION), Some(vec![1]));
    assert_eq!(client.last_tick, Some(2));
    // An older tick is refused too, full or not.
    assert_eq!(client.receive(&compute_diff(None, 0, &s0, 2)), Err(ReceiveError::OutOfOrder));
    // The delta against the tick the client holds brings it in step.
    assert_eq!(client.receive(&compute_diff(Some(&s1), 2, &s2, 3)), Ok(()));
    assert_eq!(client.world.component(7, POSITION), Some(vec![0]));
    assert_eq!(client.entity_map.translate(7), id);
}

#[test]
fn second_full_resync_of_a_tick_changes_nothing() {
    let server = world(vec![entity(4, vec![comp(POSITION, &[1])])]);
    let f1 = compute_diff(None, 0, &server, 3);
    let f2 = compute_diff(None, 0, &server, 3);
    let mut client = ClientReplica::new();
    assert_eq!(client.receive(&f1), Ok(()));
    let id = client.entity_map.translate(4);
    assert_eq!(client.entity_map.len(), 1);
    assert_eq!(client.receive(&f2), Err(ReceiveError::OutOfOrder));
    assert_eq!(client.entity_map.len(), 1);
    assert_eq!(client.entity_map.translate(4), id);
    assert_eq!(client.world.component(4, POSITION), Some(vec![1]));
}

#[test]
fn world_well_formedness_is_checked() {
    assert!(world(vec![entity(1, vec![comp(1, &[]), comp(2, &[])]), entity(2, vec![])]).check_wf());
    assert!(!world(vec![entity(1, vec![]), entity(1, vec![])]).check_wf());
    assert!(!world(vec![entity(1, vec![comp(1, &[]), comp(1, &[2])])]).check_wf());
    assert!(WorldState::new().check_wf());
}

#[test]
fn despawn_releases_the_client_id() {
    let s0 = world(vec![entity(7, vec![comp(POSITION, &[0])]), entity(8, vec![])]);
    let mut client = ClientReplica::new();
    assert_eq!(client.receive(&compute_diff(None, 0, &s0, 1)), Ok(()));
    let kept = client.entity_map.translate(8).unwrap();
    assert!(client.entity_map.translate(7).is_some());
    let s1 = world(vec![entity(8, vec![])]);
    assert_eq!(client.receive(&compute_diff(Some(&s0), 1, &s1, 2)), Ok(()));
    assert_eq!(client.entity_map.translate(7), None);
    assert_eq!(client.entity_map.translate(8), Some(kept));
    assert!(!client.world.contains_entity(7));
    client.reset();
    assert_eq!(client.entity_map.translate(8), None);
    assert_eq!(client.last_tick, None);
}

#[test]
fn excluded_component_never_replicates_whatever_the_order() {
    let mut rules = ReplicationRules::new();
    rules.replicate(POSITION);
    rules.replicate(VELOCITY);
    rules.not_replicate_if_present(POSITION, HIDDEN);
    rules.not_replicate_if_present(POSITION, HIDDEN);
    assert!(rules.replicates(POSITION));
    assert!(!rules.replicates(HIDDEN));
    let marker_last = world(vec![entity(
        1,
        vec![comp(POSITION, &[1]), comp(VELOCITY, &[2]), comp(HIDDEN, &[])],
    )]);
    let marker_first = world(vec![entity(
        1,
        vec![comp(HIDDEN, &[]), comp(VELOCITY, &[2]), comp(POSITION, &[1])],
    )]);
    for host in [marker_last, marker_first] {
        let snapshot = rules.collect(&host);
        assert_eq!(snapshot.component(1, POSITION), None);
        assert_eq!(snapshot.component(1, VELOCITY), Some(vec![2]));
        assert_eq!(snapshot.component(1, HIDDEN), None);
        let d = compute_diff(None, 0, &snapshot, 1);
        assert!(d.spawns.iter().all(|e| e.components.iter().all(|c| c.kind != POSITION)));
    }
    let shown = world(vec![entity(1, vec![comp(POSITION, &[1])])]);
    assert_eq!(rules.collect(&shown).component(1, POSITION), Some(vec![1]));
}

#[test]
fn session_sends_full_until_acknowledged_then_deltas() {
    let s0 = world(vec![entity(7, vec![comp(POSITION, &[0])])]);
    let s1 = world(vec![entity(7, vec![comp(POSITION, &[1])])]);
    let mut session = ClientSession::new(3);
    assert_eq!(session.client_id(), 3);
    assert_eq!(session.baseline_tick(0, 10), None);
    let d0 = session.produce(&s0, 1, 0, 10);
    assert!(d0.full);
    session.on_ack(1, 1);
    assert_eq!(session.baseline_tick(1, 10), Some(1));
    let d1 = session.produce(&s1, 2, 2, 10);
    assert!(!d1.full);
    assert_eq!(d1.updates.len(), 1);
    // A stale acknowledgment changes nothing.
    session.on_ack(0, 3);
    assert_eq!(session.baseline_tick(3, 10), Some(1));
    // Without a fresh acknowledgment the baseline lapses.
    assert_eq!(session.baseline_tick(50, 10), None);
    let d2 = session.produce(&s1, 3, 50, 10);
    assert!(d2.full);
    session.on_ack(2, 51);
    assert_eq!(session.baseline_tick(51, 10), Some(2));
    let d3 = session.produce(&s1, 4, 52, 10);
    assert!(!d3.full);
    assert!(d3.spawns.is_empty() && d3.updates.is_empty() && d3.despawns.is_empty());
}

#[test]
fn sessions_follow_the_connected_clients() {
    let s0 = world(vec![entity(7, vec![comp(POSITION, &[0])])]);
    let sessions = sync_sessions(vec![], &vec![3, 5]);
    assert_eq!(sessions.iter().map(|s| s.client_id()).collect::<Vec<_>>(), vec![3, 5]);
    let mut sessions = sessions;
    let _ = sessions[0].produce(&s0, 1, 0, 10);
    sessions[0].on_ack(1, 1);
    let sessions = sync_sessions(sessions, &vec![9, 3, 3]);
    let ids: Vec<u64> = sessions.iter().map(|s| s.client_id()).collect();
    assert_eq!(ids, vec![3, 9]);
    assert_eq!(sessions[0].baseline_tick(1, 10), Some(1));
    assert_eq!(sessions[1].baseline_tick(1, 10), None);
}

#[test]
fn update_keeps_every_client_id() {
    let s0 = world(vec![entity(7, vec![comp(POSITION, &[0, 0])]), entity(8, vec![])]);
    let s1 = world(vec![entity(7, vec![comp(POSITION, &[1, 0])]), entity(8, vec![])]);
    let mut client = ClientReplica::new();
    assert_eq!(client.receive(&compute_diff(None, 0, &s0, 1)), Ok(()));
    let (a, b) = (client.entity_map.translate(7), client.entity_map.translate(8));
    assert_eq!(client.entity_map.len(), 2);
    assert_eq!(client.receive(&compute_diff(Some(&s0), 1, &s1, 2)), Ok(()));
    assert_eq!(client.entity_map.len(), 2);
    assert_eq!(client.entity_map.translate(7), a);
    assert_eq!(client.entity_map.translate(8), b);
}
