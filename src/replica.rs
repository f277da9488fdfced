//! The client side of replication: the replicated world as last applied,
//! and the identity map that ties its server ids to local entities.
use vstd::prelude::*;
use vstd::set_lib::lemma_len_subset;
use crate::decode::{decode_diff, diff_v, lemma_apply_depends_on_content, parse_diff};
use crate::differ::{ApplyError, WorldDiff, apply_diff, apply_model};
use crate::entity_map::NetworkEntityMap;
use crate::world::{WorldState, find_entity, has_id, lemma_world_len, world_model};

verus! {

/// Why a received diff was not taken in.
#[derive(Clone, Copy, Debug, PartialEq, Eq, Structural)]
pub enum ReceiveError {
    /// An update names an entity that the client does not hold.
    UnknownEntity(u64),
    /// No client id is left for a newly spawned entity.
    IdsExhausted,
    /// The bytes hold no diff.
    Malformed,
    /// The diff is not newer than the last one applied, or it is a delta
    /// computed against another tick than the last one applied.
    OutOfOrder,
}

/// Whether a client whose last applied tick is `last` may apply `d`: it is
/// newer, and either full or computed against that very tick.
pub open spec fn follows(last: Option<u64>, d: WorldDiff) -> bool {
    match last {
        None => d.full,
        Some(t) => t < d.tick && (d.full || d.baseline_tick == t),
    }
}

/// What a client holds of the server's world.
pub struct ClientReplica {
    pub world: WorldState,
    pub entity_map: NetworkEntityMap,
    /// Tick of the last diff applied.
    pub last_tick: Option<u64>,
}

/// What receiving `d` leaves, from `before` to `after` with result `r`:
/// - a diff that does not follow the last one applied is refused with
///   `OutOfOrder`, and a refused diff changes nothing;
/// - success exactly applies `d` and records its tick, and keeps every
///   entity held mapped to a client id and only those;
/// - an update of an entity not held is the only cause of `UnknownEntity`;
/// - `IdsExhausted` comes only where fewer client ids were left than
///   entities held that had none;
/// - an entity that stays keeps its client id, whatever the result.
pub open spec fn receive_outcome(
    before: ClientReplica,
    after: ClientReplica,
    d: WorldDiff,
    r: Result<(), ReceiveError>,
) -> bool {
    &&& r is Ok ==> apply_model(before.world@, d) == Some(after.world@) && after.last_tick == Some(
        d.tick,
    )
    &&& r is Ok && before.synced() ==> after.synced()
    &&& r == Err::<(), ReceiveError>(ReceiveError::IdsExhausted) ==> apply_model(before.world@, d)
        == Some(after.world@) && before.entity_map.ids_left() < after.world@.dom().difference(
        before.entity_map@.dom(),
    ).len()
    &&& (r == Err::<(), ReceiveError>(ReceiveError::OutOfOrder)) <==> !follows(before.last_tick, d)
    &&& (r matches Err(ReceiveError::UnknownEntity(_))) <==> follows(before.last_tick, d)
        && apply_model(before.world@, d) is None
    &&& (r == Err::<(), ReceiveError>(ReceiveError::OutOfOrder) || r matches Err(
        ReceiveError::UnknownEntity(_),
    )) ==> after == before
    &&& r != Err::<(), ReceiveError>(ReceiveError::Malformed)
    &&& forall|s: u64|
        before.entity_map@.contains_key(s) && after.world@.contains_key(s)
            ==> #[trigger] after.entity_map@.contains_key(s) && after.entity_map@[s]
            == before.entity_map@[s]
}

impl ClientReplica {
    pub open spec fn wf(&self) -> bool {
        self.world.wf() && self.entity_map.wf()
    }

    /// Every entity held has a client id, and only those do.
    pub open spec fn synced(&self) -> bool {
        self.entity_map@.dom() == self.world@.dom()
    }

    pub fn new() -> (r: ClientReplica)
        ensures
            r.wf(),
            r.synced(),
            r.world@ == Map::<u64, Map<u32, Seq<u8>>>::empty(),
            r.entity_map.ids_left() == u64::MAX,
            r.last_tick is None,
    {
        let r = ClientReplica {
            world: WorldState::new(),
            entity_map: NetworkEntityMap::new(),
            last_tick: None,
        };
        assert(r.entity_map@.dom() =~= r.world@.dom());
        r
    }

    /// Applies a received diff that follows the last one applied, then gives
    /// each entity that appeared a client id and forgets the ids of the
    /// entities that went away. An entity that stays keeps its client id.
    pub fn receive(&mut self, d: &WorldDiff) -> (r: Result<(), ReceiveError>)
        requires
            old(self).wf(),
        ensures
            final(self).wf(),
            receive_outcome(*old(self), *final(self), *d, r),
    {
        let in_order = match self.last_tick {
            None => d.full,
            Some(t) => t < d.tick && (d.full || d.baseline_tick == t),
        };
        if !in_order {
            return Err(ReceiveError::OutOfOrder);
        }
        let ghost old_map = self.entity_map@;
        let ghost old_world = self.world@;
        let mut old_ids: Vec<u64> = Vec::new();
        let mut i: usize = 0;
        while i < self.world.entities.len()
            invariant
                *self == *old(self),
                i <= self.world.entities@.len(),
                forall|s: u64|
                    #[trigger] old_ids@.contains(s) <==> exists|j: int|
                        0 <= j < i && self.world.entities@[j].id == s,
            decreases self.world.entities@.len() - i,
        {
            let ghost before = old_ids@;
            let id = self.world.entities[i].id;
            old_ids.push(id);
            assert forall|s: u64| #[trigger] old_ids@.contains(s) <==> exists|j: int|
                0 <= j < i + 1 && self.world.entities@[j].id == s by {
                if old_ids@.contains(s) && s != id {
                    let j = choose|j: int| 0 <= j < old_ids@.len() && old_ids@[j] == s;
                    assert(before[j] == s);
                }
                if before.contains(s) {
                    let j = choose|j: int| 0 <= j < before.len() && before[j] == s;
                    assert(old_ids@[j] == s);
                }
                if s == id {
                    assert(old_ids@[old_ids@.len() - 1] == s);
                }
            }
            i = i + 1;
        }
        assert(forall|s: u64| #[trigger] old_ids@.contains(s) <==> old_world.contains_key(s));
        let applied = apply_diff(&mut self.world, d);
        match applied {
            Ok(()) => {},
            Err(ApplyError::UnknownEntity(e)) => {
                return Err(ReceiveError::UnknownEntity(e));
            },
        }
        let ghost w_after = self.world@;
        let mut i: usize = 0;
        while i < old_ids.len()
            invariant
                i <= old_ids@.len(),
                self.world@ == w_after,
                follows(old(self).last_tick, *d),
                apply_model(old_world, *d) == Some(w_after),
                self.world.wf(),
                self.entity_map.wf(),
                forall|s: u64| #[trigger] old_ids@.contains(s) <==> old_world.contains_key(s),
                forall|s: u64|
                    #[trigger] self.entity_map@.contains_key(s) ==> old_map.contains_key(s)
                        && self.entity_map@[s] == old_map[s],
                forall|s: u64|
                    old_map.contains_key(s) && self.world@.contains_key(s)
                        ==> #[trigger] self.entity_map@.contains_key(s),
                old_world == old(self).world@,
                old_map == old(self).entity_map@,
                self.entity_map.ids_left() == old(self).entity_map.ids_left(),
                forall|j: int|
                    0 <= j < i && !self.world@.contains_key(old_ids@[j])
                        ==> !self.entity_map@.contains_key(#[trigger] old_ids@[j]),
            decreases old_ids@.len() - i,
        {
            let s = old_ids[i];
            match find_entity(&self.world.entities, s) {
                Some(_) => {},
                None => {
                    let _ = self.entity_map.release(s);
                },
            }
            i = i + 1;
        }
        let ghost mut fresh: Set<u64> = Set::empty();
        let mut i: usize = 0;
        while i < self.world.entities.len()
            invariant
                fresh.finite(),
                forall|x: u64|
                    #[trigger] fresh.contains(x) ==> self.entity_map@.contains_key(x)
                        && self.world@.contains_key(x) && !old(self).entity_map@.contains_key(x),
                fresh.len() + self.entity_map.ids_left() == old(self).entity_map.ids_left(),
                i <= self.world.entities@.len(),
                self.world@ == w_after,
                follows(old(self).last_tick, *d),
                apply_model(old_world, *d) == Some(w_after),
                self.world.wf(),
                self.entity_map.wf(),
                forall|s: u64| #[trigger] old_ids@.contains(s) <==> old_world.contains_key(s),
                forall|s: u64|
                    #[trigger] self.entity_map@.contains_key(s) && old_map.contains_key(s)
                        ==> self.entity_map@[s] == old_map[s],
                forall|s: u64|
                    #[trigger] self.entity_map@.contains_key(s) ==> old_map.contains_key(s)
                        || self.world@.contains_key(s),
                forall|s: u64|
                    old_map.contains_key(s) && self.world@.contains_key(s)
                        ==> #[trigger] self.entity_map@.contains_key(s),
                forall|j: int|
                    0 <= j < old_ids@.len() && !self.world@.contains_key(old_ids@[j])
                        ==> !self.entity_map@.contains_key(#[trigger] old_ids@[j]),
                old_world == old(self).world@,
                old_map == old(self).entity_map@,
                forall|j: int|
                    0 <= j < i ==> self.entity_map@.contains_key(
                        #[trigger] self.world.entities@[j].id,
                    ),
            decreases self.world.entities@.len() - i,
        {
            let id = self.world.entities[i].id;
            proof {
                lemma_world_has(self.world.entities@, i as int);
            }
            let ghost before_map = self.entity_map@;
            assert(fresh.contains(id) ==> before_map.dom().contains(id));
            match self.entity_map.resolve(id) {
                Some(_) => {
                    proof {
                        if !before_map.contains_key(id) {
                            assert(!old_map.contains_key(id));
                            assert(!fresh.contains(id));
                            fresh = fresh.insert(id);
                        }
                    }
                },
                None => {
                    proof {
                        lemma_world_len(self.world.entities@);
                        let big = self.world@.dom().difference(old(self).entity_map@.dom());
                        assert(!old_map.contains_key(id));
                        assert(!fresh.contains(id));
                        assert(big.subset_of(self.world@.dom()));
                        lemma_len_subset(big, self.world@.dom());
                        assert(fresh.insert(id).subset_of(big));
                        lemma_len_subset(fresh.insert(id), big);
                    }
                    return Err(ReceiveError::IdsExhausted);
                },
            }
            proof {
                lemma_world_has(self.world.entities@, i as int);
            }
            i = i + 1;
        }
        self.last_tick = Some(d.tick);
        proof {
            if old_map.dom() == old_world.dom() {
                assert forall|s: u64| self.entity_map@.contains_key(s) <==> self.world@.contains_key(s) by {
                    if self.world@.contains_key(s) {
                        let j = choose|j: int| 0 <= j < self.world.entities@.len() && self.world.entities@[j].id == s;
                    }
                    if self.entity_map@.contains_key(s) && !self.world@.contains_key(s) {
                        assert(old_map.contains_key(s));
                        assert(old_ids@.contains(s));
                        let j = choose|j: int| 0 <= j < old_ids@.len() && old_ids@[j] == s;
                    }
                }
                assert(self.entity_map@.dom() =~= self.world@.dom());
            }
        }
        Ok(())
    }

    /// Reads a diff from `b` and receives it: the outcome is that of
    /// `receive` on the diff that `b` holds. Bytes that hold no diff are
    /// dropped and change nothing.
    pub fn receive_bytes(&mut self, b: &Vec<u8>) -> (r: Result<(), ReceiveError>)
        requires
            old(self).wf(),
        ensures
            final(self).wf(),
            (r == Err::<(), ReceiveError>(ReceiveError::Malformed)) <==> parse_diff(b@) is None,
            parse_diff(b@) is None ==> *final(self) == *old(self),
            parse_diff(b@) is Some ==> exists|d: WorldDiff|
                parse_diff(b@) == Some(#[trigger] diff_v(d)) && receive_outcome(
                    *old(self),
                    *final(self),
                    d,
                    r,
                ),
            forall|d: WorldDiff|
                parse_diff(b@) == Some(#[trigger] diff_v(d)) ==> receive_outcome(
                    *old(self),
                    *final(self),
                    d,
                    r,
                ),
    {
        match decode_diff(b) {
            Some(d) => {
                let r = self.receive(&d);
                assert(parse_diff(b@) == Some(diff_v(d)) && receive_outcome(*old(self), *self, d, r));
                assert forall|d2: WorldDiff|
                    parse_diff(b@) == Some(#[trigger] diff_v(d2)) implies receive_outcome(
                    *old(self),
                    *self,
                    d2,
                    r,
                ) by {
                    lemma_apply_depends_on_content(old(self).world@, d, d2);
                }
                r
            },
            None => Err(ReceiveError::Malformed),
        }
    }

    /// Drops everything held, as on a new connection.
    pub fn reset(&mut self)
        ensures
            final(self).wf(),
            final(self).synced(),
            final(self).world@ == Map::<u64, Map<u32, Seq<u8>>>::empty(),
            final(self).entity_map.ids_left() == u64::MAX,
            final(self).last_tick is None,
    {
        *self = ClientReplica::new();
    }
}

/// Receiving a diff again, or an older one, after it was applied changes
/// nothing: the second is refused. Two full resyncs of the same tick leave
/// what the first left, the identity map included.
pub proof fn lemma_receive_again(
    r0: ClientReplica,
    r1: ClientReplica,
    r2: ClientReplica,
    d1: WorldDiff,
    d2: WorldDiff,
    a: Result<(), ReceiveError>,
    b: Result<(), ReceiveError>,
)
    requires
        receive_outcome(r0, r1, d1, a),
        a is Ok,
        d2.tick <= d1.tick,
        receive_outcome(r1, r2, d2, b),
    ensures
        b == Err::<(), ReceiveError>(ReceiveError::OutOfOrder),
        r2 == r1,
{
}

proof fn lemma_world_has(s: Seq<crate::world::EntityState>, i: int)
    requires
        0 <= i < s.len(),
    ensures
        world_model(s).contains_key(s[i].id),
{
    assert(has_id(s, s[i].id));
}

} // verus!
