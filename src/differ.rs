//! World diffs: what a client is sent each tick, how it applies one, and how
//! the server computes one against the client's acknowledged baseline.
use vstd::prelude::*;
use crate::world::{
    ComponentValue, ComponentsModel, EntityState, WorldModel, WorldState, comps_model, has_id,
    has_kind, ids_unique, kinds_unique, lemma_comps_at, lemma_comps_push, lemma_entity_at,
    lemma_entity_push, lemma_remove_all, lemma_upsert_all_unique, remove_all, remove_components, bytes_eq, find_kind, find_entity,
    upsert_all, upsert_components, world_model, world_wf,
};

verus! {

/// The component changes of one entity: values written, kinds removed.
pub struct EntityUpdate {
    pub id: u64,
    pub changed: Vec<ComponentValue>,
    pub removed: Vec<u32>,
}

/// The changes of one tick. A full diff replaces whatever the receiver
/// held; a delta applies on top of the state of tick `baseline_tick` (0 in a
/// full diff). Spawns are applied first, then updates, then despawns.
pub struct WorldDiff {
    pub tick: u64,
    pub full: bool,
    pub baseline_tick: u64,
    pub spawns: Vec<EntityState>,
    pub updates: Vec<EntityUpdate>,
    pub despawns: Vec<u64>,
}

/// Why a diff could not be applied.
#[derive(Clone, Copy, Debug, PartialEq, Eq, Structural)]
pub enum ApplyError {
    /// An update names an entity that the receiver does not hold.
    UnknownEntity(u64),
}

pub open spec fn update_entity(m: ComponentsModel, u: EntityUpdate) -> ComponentsModel {
    upsert_all(remove_all(m, u.removed@), u.changed@)
}

pub open spec fn spawn_all(w: WorldModel, sp: Seq<EntityState>) -> WorldModel
    decreases sp.len(),
{
    if sp.len() == 0 {
        w
    } else {
        spawn_all(w, sp.drop_last()).insert(
            sp.last().id,
            upsert_all(Map::empty(), sp.last().components@),
        )
    }
}

pub open spec fn update_all(w: WorldModel, ups: Seq<EntityUpdate>) -> Option<WorldModel>
    decreases ups.len(),
{
    if ups.len() == 0 {
        Some(w)
    } else {
        match update_all(w, ups.drop_last()) {
            Some(w2) => if w2.contains_key(ups.last().id) {
                Some(w2.insert(ups.last().id, update_entity(w2[ups.last().id], ups.last())))
            } else {
                None
            },
            None => None,
        }
    }
}

/// What applying `d` to a receiver holding `w` gives; `None` where an update
/// names an entity that is not there.
pub open spec fn apply_model(w: WorldModel, d: WorldDiff) -> Option<WorldModel> {
    let base = if d.full {
        Map::empty()
    } else {
        w
    };
    match update_all(spawn_all(base, d.spawns@), d.updates@) {
        Some(w2) => Some(remove_all(w2, d.despawns@)),
        None => None,
    }
}

pub open spec fn update_ids_unique(ups: Seq<EntityUpdate>) -> bool {
    forall|i: int, j: int|
        0 <= i < ups.len() && 0 <= j < ups.len() && #[trigger] ups[i].id == #[trigger] ups[j].id
            ==> i == j
}

pub open spec fn has_update(ups: Seq<EntityUpdate>, id: u64) -> bool {
    exists|j: int| 0 <= j < ups.len() && ups[j].id == id
}

pub open spec fn updates_model(w: WorldModel, ups: Seq<EntityUpdate>) -> WorldModel {
    Map::new(
        |id: u64| has_update(ups, id),
        |id: u64| update_entity(w[id], ups[choose|j: int| 0 <= j < ups.len() && ups[j].id == id]),
    )
}

pub proof fn lemma_spawn_all_unique(w: WorldModel, sp: Seq<EntityState>)
    requires
        world_wf(sp),
    ensures
        spawn_all(w, sp) == w.union_prefer_right(world_model(sp)),
    decreases sp.len(),
{
    if sp.len() == 0 {
        assert(world_model(sp) =~= Map::<u64, Map<u32, Seq<u8>>>::empty());
        assert(w.union_prefer_right(world_model(sp)) =~= w);
    } else {
        let p = sp.drop_last();
        let e = sp.last();
        assert(world_wf(p)) by {
            assert forall|i: int| 0 <= i < p.len() implies kinds_unique(
                #[trigger] p[i].components@,
            ) by {
                assert(p[i] == sp[i]);
            }
        }
        assert(kinds_unique(e.components@));
        assert(!has_id(p, e.id)) by {
            if has_id(p, e.id) {
                let i = choose|i: int| 0 <= i < p.len() && p[i].id == e.id;
                assert(sp[i].id == sp[sp.len() - 1].id);
            }
        }
        lemma_spawn_all_unique(w, p);
        lemma_entity_push(p, e);
        lemma_upsert_all_unique(Map::empty(), e.components@);
        assert(Map::<u32, Seq<u8>>::empty().union_prefer_right(comps_model(e.components@))
            =~= comps_model(e.components@));
        assert(p.push(e) =~= sp);
        assert(w.union_prefer_right(world_model(sp)) =~= w.union_prefer_right(
            world_model(p),
        ).insert(e.id, comps_model(e.components@)));
    }
}

pub proof fn lemma_update_all_unique(w: WorldModel, ups: Seq<EntityUpdate>)
    requires
        update_ids_unique(ups),
        forall|j: int| 0 <= j < ups.len() ==> w.contains_key(#[trigger] ups[j].id),
    ensures
        update_all(w, ups) == Some(w.union_prefer_right(updates_model(w, ups))),
    decreases ups.len(),
{
    if ups.len() == 0 {
        assert(updates_model(w, ups) =~= Map::<u64, Map<u32, Seq<u8>>>::empty());
        assert(w.union_prefer_right(updates_model(w, ups)) =~= w);
    } else {
        let p = ups.drop_last();
        let l = ups.last();
        let n = ups.len() - 1;
        assert(update_ids_unique(p));
        assert forall|j: int| 0 <= j < p.len() implies w.contains_key(#[trigger] p[j].id) by {
            assert(p[j] == ups[j]);
        }
        lemma_update_all_unique(w, p);
        let w2 = w.union_prefer_right(updates_model(w, p));
        assert(!has_update(p, l.id)) by {
            if has_update(p, l.id) {
                let j = choose|j: int| 0 <= j < p.len() && p[j].id == l.id;
                assert(ups[j].id == ups[n].id);
            }
        }
        assert(w.contains_key(ups[n].id));
        assert(w2[l.id] == w[l.id]);
        let target = w2.insert(l.id, update_entity(w[l.id], l));
        let um = updates_model(w, ups);
        assert forall|id: u64| #[trigger] um.contains_key(id) <==> updates_model(
            w,
            p,
        ).contains_key(id) || id == l.id by {
            if has_update(ups, id) {
                let j = choose|j: int| 0 <= j < ups.len() && ups[j].id == id;
                if j < n {
                    assert(p[j].id == id);
                }
            }
            if has_update(p, id) {
                let j = choose|j: int| 0 <= j < p.len() && p[j].id == id;
                assert(ups[j].id == id);
            }
            if id == l.id {
                assert(ups[n].id == id);
            }
        }
        assert forall|id: u64| #[trigger] um.contains_key(id) implies um[id] == (if id == l.id {
            update_entity(w[l.id], l)
        } else {
            updates_model(w, p)[id]
        }) by {
            let j = choose|j: int| 0 <= j < ups.len() && ups[j].id == id;
            if id == l.id {
                assert(ups[j].id == ups[n].id);
            } else {
                assert(has_update(p, id));
                let k = choose|k: int| 0 <= k < p.len() && p[k].id == id;
                assert(ups[k].id == ups[j].id);
            }
        }
        assert(w.union_prefer_right(um) =~= target);
    }
}

/// Applies `d` to `state`. On success `state` holds what `apply_model` says;
/// an error leaves a state that the session must discard.
pub fn apply_diff(state: &mut WorldState, d: &WorldDiff) -> (r: Result<(), ApplyError>)
    requires
        old(state).wf(),
    ensures
        final(state).wf(),
        r is Ok ==> apply_model(old(state)@, *d) == Some(final(state)@),
        r is Err ==> apply_model(old(state)@, *d) is None && *final(state) == *old(state),
{
    let ghost base0 = if d.full {
        Map::<u64, Map<u32, Seq<u8>>>::empty()
    } else {
        old(state)@
    };
    let mut i: usize = 0;
    while i < d.updates.len()
        invariant
            i <= d.updates@.len(),
            *state == *old(state),
            state.wf(),
            base0 == (if d.full {
                Map::empty()
            } else {
                old(state)@
            }),
            forall|j: int|
                0 <= j < i ==> spawn_all(base0, d.spawns@).contains_key(#[trigger] d.updates@[j].id),
        decreases d.updates@.len() - i,
    {
        let id = d.updates[i].id;
        let held = !d.full && state.contains_entity(id);
        let spawned = find_entity(&d.spawns, id).is_some();
        proof {
            lemma_spawn_all_dom(base0, d.spawns@);
        }
        if !held && !spawned {
            proof {
                lemma_update_all_iff(spawn_all(base0, d.spawns@), d.updates@);
                assert(!spawn_all(base0, d.spawns@).contains_key(d.updates@[i as int].id));
            }
            return Err(ApplyError::UnknownEntity(id));
        }
        i = i + 1;
    }
    proof {
        lemma_update_all_iff(spawn_all(base0, d.spawns@), d.updates@);
    }
    if d.full {
        *state = WorldState::new();
    }
    let ghost base = state@;
    assert(base == (if d.full {
        Map::empty()
    } else {
        old(state)@
    }));
    let mut i: usize = 0;
    while i < d.spawns.len()
        invariant
            i <= d.spawns@.len(),
            state.wf(),
            state@ == spawn_all(base, d.spawns@.subrange(0, i as int)),
            base == (if d.full {
                Map::empty()
            } else {
                old(state)@
            }),
        decreases d.spawns@.len() - i,
    {
        let sp = &d.spawns[i];
        let mut comps: Vec<ComponentValue> = Vec::new();
        assert(comps_model(comps@) =~= Map::<u32, Seq<u8>>::empty());
        upsert_components(&mut comps, &sp.components);
        state.put_entity(EntityState { id: sp.id, components: comps });
        assert(d.spawns@.subrange(0, i + 1).drop_last() =~= d.spawns@.subrange(0, i as int));
        i = i + 1;
    }
    assert(d.spawns@.subrange(0, d.spawns@.len() as int) =~= d.spawns@);
    let ghost spawned = state@;
    let mut i: usize = 0;
    while i < d.updates.len()
        invariant
            i <= d.updates@.len(),
            state.wf(),
            update_all(spawned, d.updates@.subrange(0, i as int)) == Some(state@),
            update_all(spawn_all(base, d.spawns@), d.updates@) is Some,
            spawned == spawn_all(base, d.spawns@),
            base == (if d.full {
                Map::empty()
            } else {
                old(state)@
            }),
        decreases d.updates@.len() - i,
    {
        let u = &d.updates[i];
        assert(d.updates@.subrange(0, i + 1).drop_last() =~= d.updates@.subrange(0, i as int));
        match state.take_entity(u.id) {
            Some(e) => {
                let mut e = e;
                remove_components(&mut e.components, &u.removed);
                upsert_components(&mut e.components, &u.changed);
                state.put_entity(e);
            },
            None => {
                proof {
                    lemma_update_all_none(spawned, d.updates@, i as int);
                    assert(spawned == spawn_all(base, d.spawns@));
                    assert(false);
                }
                return Err(ApplyError::UnknownEntity(u.id));
            },
        }
        i = i + 1;
    }
    assert(d.updates@.subrange(0, d.updates@.len() as int) =~= d.updates@);
    let ghost updated = state@;
    let mut i: usize = 0;
    while i < d.despawns.len()
        invariant
            i <= d.despawns@.len(),
            state.wf(),
            state@ == remove_all(updated, d.despawns@.subrange(0, i as int)),
            update_all(spawn_all(base, d.spawns@), d.updates@) == Some(updated),
            base == (if d.full {
                Map::empty()
            } else {
                old(state)@
            }),
        decreases d.despawns@.len() - i,
    {
        let _ = state.take_entity(d.despawns[i]);
        assert(d.despawns@.subrange(0, i + 1).drop_last() =~= d.despawns@.subrange(0, i as int));
        i = i + 1;
    }
    assert(d.despawns@.subrange(0, d.despawns@.len() as int) =~= d.despawns@);
    Ok(())
}

/// What spawning `sp` over `w` holds: what `w` held and what was spawned.
proof fn lemma_spawn_all_dom(w: WorldModel, sp: Seq<EntityState>)
    ensures
        forall|id: u64| #[trigger]
            spawn_all(w, sp).contains_key(id) <==> w.contains_key(id) || has_id(sp, id),
    decreases sp.len(),
{
    if sp.len() > 0 {
        let p = sp.drop_last();
        lemma_spawn_all_dom(w, p);
        assert forall|id: u64| #[trigger] has_id(sp, id) <==> has_id(p, id) || sp.last().id == id by {
            if has_id(sp, id) {
                let j = choose|j: int| 0 <= j < sp.len() && sp[j].id == id;
                if j < p.len() {
                    assert(p[j].id == id);
                }
            }
            if has_id(p, id) {
                let j = choose|j: int| 0 <= j < p.len() && p[j].id == id;
                assert(sp[j].id == id);
            }
            if sp.last().id == id {
                assert(sp[sp.len() - 1].id == id);
            }
        }
        assert forall|id: u64| #[trigger]
            spawn_all(w, sp).contains_key(id) <==> w.contains_key(id) || has_id(sp, id) by {
            assert(spawn_all(w, p).contains_key(id) <==> w.contains_key(id) || has_id(p, id));
        }
    } else {
        assert forall|id: u64| !has_id(sp, id) by {}
    }
}

/// Updates apply exactly when each names an entity held; they keep the set
/// of entities.
proof fn lemma_update_all_iff(w: WorldModel, ups: Seq<EntityUpdate>)
    ensures
        update_all(w, ups) is Some <==> forall|j: int|
            0 <= j < ups.len() ==> w.contains_key(#[trigger] ups[j].id),
        update_all(w, ups) matches Some(w2) ==> w2.dom() == w.dom(),
    decreases ups.len(),
{
    if ups.len() > 0 {
        let p = ups.drop_last();
        lemma_update_all_iff(w, p);
        assert forall|j: int| 0 <= j < p.len() implies p[j] == ups[j] by {}
        match update_all(w, p) {
            Some(w2) => {
                if w2.contains_key(ups.last().id) {
                    assert(w2.insert(ups.last().id, update_entity(w2[ups.last().id], ups.last())).dom() =~= w2.dom());
                }
            },
            None => {
                let j = choose|j: int| 0 <= j < p.len() && !w.contains_key(#[trigger] p[j].id);
                assert(!w.contains_key(ups[j].id));
            },
        }
    }
}

/// Once a prefix of the updates fails, all of them fail.
proof fn lemma_update_all_none(w: WorldModel, ups: Seq<EntityUpdate>, i: int)
    requires
        0 <= i < ups.len(),
        match update_all(w, ups.subrange(0, i)) {
            Some(w2) => !w2.contains_key(ups[i].id),
            None => true,
        },
    ensures
        update_all(w, ups) is None,
    decreases ups.len(),
{
    assert(ups.subrange(0, i + 1).drop_last() =~= ups.subrange(0, i));
    if i + 1 == ups.len() {
        assert(ups.subrange(0, i + 1) =~= ups);
    } else {
        let p = ups.drop_last();
        assert(p.subrange(0, i) =~= ups.subrange(0, i));
        lemma_update_all_none(w, p, i);
    }
}

/// The components of `n` that `o` lacks or holds with another value.
pub open spec fn changed_model(o: ComponentsModel, n: ComponentsModel) -> ComponentsModel {
    Map::new(|k: u32| n.contains_key(k) && (!o.contains_key(k) || o[k] != n[k]), |k: u32| n[k])
}

/// The entities of `s` that `b` lacks.
pub open spec fn new_in(b: WorldModel, s: WorldModel) -> WorldModel {
    Map::new(|id: u64| s.contains_key(id) && !b.contains_key(id), |id: u64| s[id])
}

/// `u` carries exactly the component changes that take `o` to `n`.
pub open spec fn is_component_delta(o: ComponentsModel, n: ComponentsModel, u: EntityUpdate) -> bool {
    &&& kinds_unique(u.changed@)
    &&& comps_model(u.changed@) == changed_model(o, n)
    &&& forall|k: u32| #[trigger] u.removed@.contains(k) <==> o.contains_key(k) && !n.contains_key(k)
}

/// `d` takes a receiver holding `b` to `s` and carries nothing else: it
/// spawns the entities that `b` lacks, updates the entities whose
/// components differ with just the differing components, and despawns the
/// entities that `s` lacks.
pub open spec fn is_minimal_delta(b: WorldModel, s: WorldModel, d: WorldDiff) -> bool {
    &&& world_wf(d.spawns@)
    &&& world_model(d.spawns@) == new_in(b, s)
    &&& update_ids_unique(d.updates@)
    &&& forall|j: int|
        0 <= j < d.updates@.len() ==> {
            let u = #[trigger] d.updates@[j];
            &&& b.contains_key(u.id)
            &&& s.contains_key(u.id)
            &&& b[u.id] != s[u.id]
            &&& is_component_delta(b[u.id], s[u.id], u)
        }
    &&& forall|id: u64|
        b.contains_key(id) && s.contains_key(id) && b[id] != s[id] ==> #[trigger] has_update(
            d.updates@,
            id,
        )
    &&& forall|id: u64| #[trigger]
        d.despawns@.contains(id) <==> b.contains_key(id) && !s.contains_key(id)
}

/// Every component value that `d` carries is the value that `s` holds.
pub open spec fn records_within(s: WorldModel, d: WorldDiff) -> bool {
    &&& forall|j: int, c: int|
        0 <= j < d.spawns@.len() && 0 <= c < d.spawns@[j].components@.len()
            ==> #[trigger] value_within(s, d.spawns@[j].id, d.spawns@[j].components@[c])
    &&& forall|j: int, c: int|
        0 <= j < d.updates@.len() && 0 <= c < d.updates@[j].changed@.len()
            ==> #[trigger] value_within(s, d.updates@[j].id, d.updates@[j].changed@[c])
}

/// `s` holds the value `v` on the entity `id`.
pub open spec fn value_within(s: WorldModel, id: u64, v: ComponentValue) -> bool {
    s.contains_key(id) && s[id].contains_key(v.kind) && s[id][v.kind] == v.data@
}

pub proof fn lemma_component_delta(o: ComponentsModel, n: ComponentsModel, u: EntityUpdate)
    requires
        is_component_delta(o, n, u),
    ensures
        update_entity(o, u) == n,
        (u.changed@.len() == 0 && u.removed@.len() == 0) <==> o == n,
{
    let r = remove_all(o, u.removed@);
    lemma_remove_all(o, u.removed@);
    lemma_upsert_all_unique(r, u.changed@);
    let cm = changed_model(o, n);
    assert(r.union_prefer_right(cm) =~= n);
    if u.changed@.len() > 0 {
        lemma_comps_at(u.changed@, 0);
        assert(o != n);
    }
    if u.removed@.len() > 0 {
        assert(u.removed@.contains(u.removed@[0]));
        assert(o != n);
    }
    if u.changed@.len() == 0 && u.removed@.len() == 0 {
        assert forall|k: u32| n.contains_key(k) implies o.contains_key(k) && o[k] == n[k] by {
            assert(!cm.contains_key(k));
        }
        assert forall|k: u32| o.contains_key(k) implies n.contains_key(k) by {
            assert(!u.removed@.contains(k));
        }
        assert(o =~= n);
    }
}

/// A minimal delta from `b` to `s`, applied to `b`, gives `s`.
pub proof fn lemma_minimal_delta_applies(b: WorldModel, s: WorldModel, d: WorldDiff)
    requires
        is_minimal_delta(b, s, d),
        !d.full,
    ensures
        apply_model(b, d) == Some(s),
{
    let sp = new_in(b, s);
    lemma_spawn_all_unique(b, d.spawns@);
    let w1 = b.union_prefer_right(sp);
    let ups = d.updates@;
    assert forall|j: int| 0 <= j < ups.len() implies w1.contains_key(#[trigger] ups[j].id) by {
        assert(b.contains_key(ups[j].id));
    }
    lemma_update_all_unique(w1, ups);
    let w2 = w1.union_prefer_right(updates_model(w1, ups));
    lemma_remove_all(w2, d.despawns@);
    let r = remove_all(w2, d.despawns@);
    assert forall|k: u64| #[trigger] r.contains_key(k) <==> s.contains_key(k) by {
        if has_update(ups, k) {
            let j = choose|j: int| 0 <= j < ups.len() && ups[j].id == k;
            assert(b.contains_key(ups[j].id) && s.contains_key(ups[j].id));
        }
    }
    assert forall|k: u64| #[trigger] r.contains_key(k) implies r[k] == s[k] by {
        if has_update(ups, k) {
            let j = choose|j: int| 0 <= j < ups.len() && ups[j].id == k;
            let u = ups[j];
            assert(b.contains_key(u.id) && s.contains_key(u.id) && is_component_delta(
                b[u.id],
                s[u.id],
                u,
            ));
            lemma_component_delta(b[k], s[k], u);
            assert(w1[k] == b[k]);
        } else if b.contains_key(k) {
            if b[k] != s[k] {
                assert(has_update(ups, k));
            }
        }
    }
    assert(r =~= s);
}

impl EntityState {
    /// A copy of this entity.
    pub fn duplicate(&self) -> (r: EntityState)
        ensures
            r.id == self.id,
            kinds_unique(self.components@) ==> comps_model(r.components@) == comps_model(
                self.components@,
            ),
            kinds_unique(r.components@) == kinds_unique(self.components@),
            r.components@.len() == self.components@.len(),
            forall|c: int|
                0 <= c < r.components@.len() ==> (#[trigger] r.components@[c]).kind
                    == self.components@[c].kind && r.components@[c].data@
                    == self.components@[c].data@,
    {
        let mut comps: Vec<ComponentValue> = Vec::new();
        let mut i: usize = 0;
        while i < self.components.len()
            invariant
                i <= self.components@.len(),
                comps@.len() == i,
                forall|c: int|
                    0 <= c < i ==> (#[trigger] comps@[c]).kind == self.components@[c].kind
                        && comps@[c].data@ == self.components@[c].data@,
            decreases self.components@.len() - i,
        {
            comps.push(self.components[i].duplicate());
            i = i + 1;
        }
        proof {
            let s = self.components@;
            let t = comps@;
            assert forall|k: u32| has_kind(t, k) <==> has_kind(s, k) by {
                if has_kind(t, k) {
                    let c = choose|c: int| 0 <= c < t.len() && t[c].kind == k;
                    assert(s[c].kind == k);
                }
                if has_kind(s, k) {
                    let c = choose|c: int| 0 <= c < s.len() && s[c].kind == k;
                    assert(t[c].kind == k);
                }
            }
            if kinds_unique(s) {
                assert forall|a: int, b: int|
                    0 <= a < t.len() && 0 <= b < t.len() && #[trigger] t[a].kind == #[trigger] t[b].kind
                        implies a == b by {
                    assert(s[a].kind == s[b].kind);
                }
                assert forall|k: u32| #[trigger] comps_model(t).contains_key(k) implies comps_model(
                    t,
                )[k] == comps_model(s)[k] by {
                    let c = choose|c: int| 0 <= c < t.len() && t[c].kind == k;
                    lemma_comps_at(t, c);
                    lemma_comps_at(s, c);
                }
                assert(comps_model(t) =~= comps_model(s));
            } else {
                assert(!kinds_unique(t)) by {
                    let (a, b) = choose|a: int, b: int|
                        0 <= a < s.len() && 0 <= b < s.len() && s[a].kind == s[b].kind && a != b;
                    assert(t[a].kind == t[b].kind);
                }
            }
        }
        EntityState { id: self.id, components: comps }
    }
}

/// The component changes that take `old` to `new`.
pub fn diff_components(old: &Vec<ComponentValue>, new: &Vec<ComponentValue>, id: u64) -> (r:
    EntityUpdate)
    requires
        kinds_unique(old@),
        kinds_unique(new@),
    ensures
        r.id == id,
        is_component_delta(comps_model(old@), comps_model(new@), r),
{
    let ghost o = comps_model(old@);
    let mut changed: Vec<ComponentValue> = Vec::new();
    let mut i: usize = 0;
    assert(comps_model(changed@) =~= changed_model(o, comps_model(new@.subrange(0, 0))));
    while i < new.len()
        invariant
            i <= new@.len(),
            kinds_unique(new@),
            kinds_unique(old@),
            o == comps_model(old@),
            kinds_unique(changed@),
            comps_model(changed@) == changed_model(o, comps_model(new@.subrange(0, i as int))),
        decreases new@.len() - i,
    {
        let ghost ni = comps_model(new@.subrange(0, i as int));
        let c = &new[i];
        proof {
            let p = new@.subrange(0, i as int);
            assert(kinds_unique(p));
            assert(!has_kind(p, c.kind)) by {
                if has_kind(p, c.kind) {
                    let j = choose|j: int| 0 <= j < p.len() && p[j].kind == c.kind;
                    assert(new@[j].kind == new@[i as int].kind);
                }
            }
            lemma_comps_push(p, *c);
            assert(p.push(*c) =~= new@.subrange(0, i + 1));
        }
        let differs = match find_kind(old, c.kind) {
            Some(j) => {
                proof {
                    lemma_comps_at(old@, j as int);
                }
                !bytes_eq(&old[j].data, &c.data)
            },
            None => true,
        };
        if differs {
            proof {
                assert(!has_kind(changed@, c.kind)) by {
                    if has_kind(changed@, c.kind) {
                        let j = choose|j: int| 0 <= j < changed@.len() && changed@[j].kind == c.kind;
                        lemma_comps_at(changed@, j);
                    }
                }
            }
            let dup = c.duplicate();
            proof {
                lemma_comps_push(changed@, dup);
            }
            changed.push(dup);
        }
        i = i + 1;
        assert(comps_model(changed@) =~= changed_model(
            o,
            comps_model(new@.subrange(0, i as int)),
        ));
    }
    assert(new@.subrange(0, new@.len() as int) =~= new@);
    let mut removed: Vec<u32> = Vec::new();
    let mut i: usize = 0;
    while i < old.len()
        invariant
            i <= old@.len(),
            forall|k: u32| #[trigger]
                removed@.contains(k) <==> (exists|j: int| 0 <= j < i && old@[j].kind == k)
                    && !has_kind(new@, k),
        decreases old@.len() - i,
    {
        let k = old[i].kind;
        let ghost before = removed@;
        match find_kind(new, k) {
            Some(_) => {},
            None => {
                removed.push(k);
            },
        }
        assert forall|x: u32| #[trigger] removed@.contains(x) <==> (exists|j: int|
            0 <= j < i + 1 && old@[j].kind == x) && !has_kind(new@, x) by {
            if removed@.contains(x) && x != k {
                let j = choose|j: int| 0 <= j < removed@.len() && removed@[j] == x;
                assert(before[j] == x);
            }
            if before.contains(x) {
                let j = choose|j: int| 0 <= j < before.len() && before[j] == x;
                assert(removed@[j] == x);
            }
            if x == k && !has_kind(new@, x) {
                assert(removed@[removed@.len() - 1] == x);
            }
        }
        i = i + 1;
    }
    EntityUpdate { id, changed, removed }
}

/// What a full diff of `s` holds: every entity of `s`, spawned, and nothing
/// else.
pub open spec fn is_full_snapshot(s: WorldModel, d: WorldDiff) -> bool {
    &&& d.full
    &&& world_wf(d.spawns@)
    &&& world_model(d.spawns@) == s
    &&& d.updates@.len() == 0
    &&& d.despawns@.len() == 0
}

/// A full diff of `s` takes any receiver to `s`.
pub proof fn lemma_full_snapshot_applies(w: WorldModel, s: WorldModel, d: WorldDiff)
    requires
        is_full_snapshot(s, d),
    ensures
        apply_model(w, d) == Some(s),
{
    lemma_spawn_all_unique(Map::empty(), d.spawns@);
    assert(Map::<u64, Map<u32, Seq<u8>>>::empty().union_prefer_right(s) =~= s);
    assert(update_all(s, d.updates@) == Some(s));
}

pub proof fn lemma_minimal_delta_within(b: WorldModel, s: WorldModel, d: WorldDiff)
    requires
        is_minimal_delta(b, s, d) || is_full_snapshot(s, d),
    ensures
        records_within(s, d),
{
    assert forall|j: int, c: int|
        0 <= j < d.spawns@.len() && 0 <= c < d.spawns@[j].components@.len() implies #[trigger] value_within(
        s,
        d.spawns@[j].id,
        d.spawns@[j].components@[c],
    ) by {
        lemma_entity_at(d.spawns@, j);
        lemma_comps_at(d.spawns@[j].components@, c);
        if !is_full_snapshot(s, d) {
            assert(new_in(b, s).contains_key(d.spawns@[j].id));
        }
    }
    assert forall|j: int, c: int|
        0 <= j < d.updates@.len() && 0 <= c < d.updates@[j].changed@.len() implies #[trigger] value_within(
        s,
        d.updates@[j].id,
        d.updates@[j].changed@[c],
    ) by {
        let u = d.updates@[j];
        if !is_full_snapshot(s, d) {
            assert(is_component_delta(b[u.id], s[u.id], u));
            lemma_comps_at(u.changed@, c);
        }
    }
}

/// A full diff of `current`: every entity spawned with all its components.
pub fn full_diff(current: &WorldState, tick: u64) -> (d: WorldDiff)
    requires
        current.wf(),
    ensures
        d.tick == tick,
        d.baseline_tick == 0,
        is_full_snapshot(current@, d),
{
    let mut spawns: Vec<EntityState> = Vec::new();
    let mut i: usize = 0;
    while i < current.entities.len()
        invariant
            i <= current.entities@.len(),
            current.wf(),
            world_wf(spawns@),
            world_model(spawns@) == world_model(current.entities@.subrange(0, i as int)),
        decreases current.entities@.len() - i,
    {
        let e = current.entities[i].duplicate();
        proof {
            let p = current.entities@.subrange(0, i as int);
            let x = current.entities@[i as int];
            assert(world_wf(p)) by {
                assert forall|a: int| 0 <= a < p.len() implies kinds_unique(
                    #[trigger] p[a].components@,
                ) by {
                    assert(p[a] == current.entities@[a]);
                }
            }
            assert(!has_id(p, x.id)) by {
                if has_id(p, x.id) {
                    let a = choose|a: int| 0 <= a < p.len() && p[a].id == x.id;
                    assert(current.entities@[a].id == current.entities@[i as int].id);
                }
            }
            assert(kinds_unique(x.components@));
            lemma_entity_push(p, x);
            assert(p.push(x) =~= current.entities@.subrange(0, i + 1));
            assert(!has_id(spawns@, e.id)) by {
                if has_id(spawns@, e.id) {
                    let a = choose|a: int| 0 <= a < spawns@.len() && spawns@[a].id == e.id;
                    lemma_entity_at(spawns@, a);
                }
            }
            lemma_entity_push(spawns@, e);
        }
        spawns.push(e);
        i = i + 1;
    }
    assert(current.entities@.subrange(0, current.entities@.len() as int) =~= current.entities@);
    WorldDiff {
        tick,
        full: true,
        baseline_tick: 0,
        spawns,
        updates: Vec::new(),
        despawns: Vec::new(),
    }
}

/// The minimal delta from `baseline`, the state of tick `baseline_tick`, to
/// `current`.
pub fn delta_diff(baseline: &WorldState, baseline_tick: u64, current: &WorldState, tick: u64) -> (d:
    WorldDiff)
    requires
        baseline.wf(),
        current.wf(),
    ensures
        d.tick == tick,
        d.baseline_tick == baseline_tick,
        !d.full,
        is_minimal_delta(baseline@, current@, d),
{
    let ghost b = baseline@;
    let ghost s = current@;
    let mut spawns: Vec<EntityState> = Vec::new();
    let mut updates: Vec<EntityUpdate> = Vec::new();
    let mut i: usize = 0;
    assert(world_model(spawns@) =~= new_in(b, world_model(current.entities@.subrange(0, 0))));
    while i < current.entities.len()
        invariant
            i <= current.entities@.len(),
            baseline.wf(),
            current.wf(),
            b == baseline@,
            s == current@,
            forall|id: u64|
                #![trigger world_model(current.entities@.subrange(0, i as int)).contains_key(id)]
                world_model(current.entities@.subrange(0, i as int)).contains_key(id)
                    ==> s.contains_key(id) && world_model(current.entities@.subrange(0, i as int))[id]
                    == s[id],
            world_wf(spawns@),
            world_model(spawns@) == new_in(b, world_model(current.entities@.subrange(0, i as int))),
            update_ids_unique(updates@),
            forall|j: int|
                0 <= j < updates@.len() ==> {
                    let u = #[trigger] updates@[j];
                    &&& world_model(current.entities@.subrange(0, i as int)).contains_key(u.id)
                    &&& b.contains_key(u.id)
                    &&& s.contains_key(u.id)
                    &&& b[u.id] != s[u.id]
                    &&& is_component_delta(b[u.id], s[u.id], u)
                },
            forall|id: u64|
                world_model(current.entities@.subrange(0, i as int)).contains_key(id)
                    && b.contains_key(id) && b[id] != s[id] ==> #[trigger] has_update(
                    updates@,
                    id,
                ),
        decreases current.entities@.len() - i,
    {
        let ghost p = current.entities@.subrange(0, i as int);
        let ghost pm = world_model(p);
        let x = &current.entities[i];
        proof {
            assert(world_wf(p)) by {
                assert forall|a: int| 0 <= a < p.len() implies kinds_unique(
                    #[trigger] p[a].components@,
                ) by {
                    assert(p[a] == current.entities@[a]);
                }
            }
            assert(!has_id(p, x.id)) by {
                if has_id(p, x.id) {
                    let a = choose|a: int| 0 <= a < p.len() && p[a].id == x.id;
                    assert(current.entities@[a].id == current.entities@[i as int].id);
                }
            }
            assert(kinds_unique(x.components@));
            lemma_entity_push(p, *x);
            assert(p.push(*x) =~= current.entities@.subrange(0, i + 1));
            lemma_entity_at(current.entities@, i as int);
        }
        let ghost nm = world_model(current.entities@.subrange(0, i + 1));
        assert(nm == pm.insert(x.id, comps_model(x.components@)));
        assert(!pm.contains_key(x.id));
        match find_entity(&baseline.entities, x.id) {
            None => {
                let e = x.duplicate();
                proof {
                    assert(!has_id(spawns@, e.id)) by {
                        if has_id(spawns@, e.id) {
                            let a = choose|a: int| 0 <= a < spawns@.len() && spawns@[a].id == e.id;
                            lemma_entity_at(spawns@, a);
                        }
                    }
                    lemma_entity_push(spawns@, e);
                }
                spawns.push(e);
                assert(world_model(spawns@) =~= new_in(b, nm));
                assert forall|id: u64|
                    nm.contains_key(id) && b.contains_key(id) && b[id] != s[id] implies #[trigger] has_update(
                    updates@,
                    id,
                ) by {
                    assert(pm.contains_key(id));
                }
            },
            Some(k) => {
                let y = &baseline.entities[k];
                proof {
                    lemma_entity_at(baseline.entities@, k as int);
                }
                let u = diff_components(&y.components, &x.components, x.id);
                proof {
                    lemma_component_delta(b[x.id], s[x.id], u);
                }
                assert(world_model(spawns@) =~= new_in(b, nm));
                if u.changed.len() != 0 || u.removed.len() != 0 {
                    let ghost before = updates@;
                    updates.push(u);
                    proof {
                        assert forall|a: int, c: int|
                            0 <= a < updates@.len() && 0 <= c < updates@.len() && #[trigger] updates@[a].id
                                == #[trigger] updates@[c].id implies a == c by {
                            if a < before.len() && c < before.len() {
                                assert(before[a].id == before[c].id);
                            } else if a < before.len() {
                                assert(pm.contains_key(before[a].id));
                            } else if c < before.len() {
                                assert(pm.contains_key(before[c].id));
                            }
                        }
                        assert forall|id: u64|
                            nm.contains_key(id) && b.contains_key(id) && b[id] != s[id] implies #[trigger] has_update(
                            updates@,
                            id,
                        ) by {
                            if id == x.id {
                                assert(updates@[updates@.len() - 1].id == id);
                            } else {
                                assert(pm.contains_key(id));
                                assert(has_update(before, id));
                                let j = choose|j: int| 0 <= j < before.len() && before[j].id == id;
                                assert(updates@[j] == before[j]);
                            }
                        }
                        assert forall|j: int| 0 <= j < updates@.len() implies {
                            let u = #[trigger] updates@[j];
                            &&& nm.contains_key(u.id)
                            &&& b.contains_key(u.id)
                            &&& s.contains_key(u.id)
                            &&& b[u.id] != s[u.id]
                            &&& is_component_delta(b[u.id], s[u.id], u)
                        } by {
                            if j < before.len() {
                                assert(updates@[j] == before[j]);
                            }
                        }
                    }
                } else {
                    assert forall|id: u64|
                        nm.contains_key(id) && b.contains_key(id) && b[id] != s[id] implies #[trigger] has_update(
                        updates@,
                        id,
                    ) by {
                        assert(pm.contains_key(id));
                    }
                }
            },
        }
        i = i + 1;
    }
    assert(current.entities@.subrange(0, current.entities@.len() as int) =~= current.entities@);
    let mut despawns: Vec<u64> = Vec::new();
    let mut i: usize = 0;
    while i < baseline.entities.len()
        invariant
            i <= baseline.entities@.len(),
            s == current@,
            forall|id: u64| #[trigger]
                despawns@.contains(id) <==> (exists|j: int|
                    0 <= j < i && baseline.entities@[j].id == id) && !s.contains_key(id),
        decreases baseline.entities@.len() - i,
    {
        let id = baseline.entities[i].id;
        let ghost before = despawns@;
        match find_entity(&current.entities, id) {
            Some(_) => {},
            None => {
                despawns.push(id);
            },
        }
        assert forall|x: u64| #[trigger] despawns@.contains(x) <==> (exists|j: int|
            0 <= j < i + 1 && baseline.entities@[j].id == x) && !s.contains_key(x) by {
            if despawns@.contains(x) && x != id {
                let j = choose|j: int| 0 <= j < despawns@.len() && despawns@[j] == x;
                assert(before[j] == x);
            }
            if before.contains(x) {
                let j = choose|j: int| 0 <= j < before.len() && before[j] == x;
                assert(despawns@[j] == x);
            }
            if x == id && !s.contains_key(x) {
                assert(despawns@[despawns@.len() - 1] == x);
            }
        }
        i = i + 1;
    }
    WorldDiff { tick, full: false, baseline_tick, spawns, updates, despawns }
}

/// The diff that a client with the acknowledged `baseline`, the state of
/// tick `baseline_tick`, is sent: a full diff where it has none, else the
/// minimal delta. Either way, applied to what the client holds at its
/// baseline, it gives `current`.
pub fn compute_diff(
    baseline: Option<&WorldState>,
    baseline_tick: u64,
    current: &WorldState,
    tick: u64,
) -> (d: WorldDiff)
    requires
        current.wf(),
        baseline matches Some(b) ==> b.wf(),
    ensures
        d.tick == tick,
        d.full == baseline.is_none(),
        d.baseline_tick == (if baseline is Some {
            baseline_tick
        } else {
            0
        }),
        records_within(current@, d),
        match baseline {
            Some(b) => is_minimal_delta(b@, current@, d) && apply_model(b@, d) == Some(current@),
            None => is_full_snapshot(current@, d) && forall|w: WorldModel|
                #[trigger] apply_model(w, d) == Some(current@),
        },
{
    match baseline {
        Some(b) => {
            let d = delta_diff(b, baseline_tick, current, tick);
            proof {
                lemma_minimal_delta_applies(b@, current@, d);
                lemma_minimal_delta_within(b@, current@, d);
            }
            d
        },
        None => {
            let d = full_diff(current, tick);
            proof {
                lemma_minimal_delta_within(Map::empty(), current@, d);
                assert forall|w: WorldModel| #[trigger] apply_model(w, d) == Some(current@) by {
                    lemma_full_snapshot_applies(w, current@, d);
                }
            }
            d
        },
    }
}

/// Convergence: whatever a client holds, after any mutations on the server
/// and any lost messages, a full diff of the server's state takes it to
/// that state.
pub proof fn lemma_full_resync_converges(w: WorldModel, s: WorldModel, d: WorldDiff)
    requires
        is_full_snapshot(s, d),
    ensures
        apply_model(w, d) == Some(s),
{
    lemma_full_snapshot_applies(w, s, d);
}

/// Applying the same full diff twice leaves what applying it once left.
pub proof fn lemma_full_resync_idempotent(w: WorldModel, s: WorldModel, d: WorldDiff)
    requires
        is_full_snapshot(s, d),
    ensures
        apply_model(w, d) is Some,
        apply_model(apply_model(w, d)->0, d) == apply_model(w, d),
{
    lemma_full_snapshot_applies(w, s, d);
    lemma_full_snapshot_applies(s, s, d);
}

/// Delta correctness: the delta from a baseline `b` to a state `s`, applied
/// to `b`, gives `s` exactly.
pub proof fn lemma_delta_correct(b: WorldModel, s: WorldModel, d: WorldDiff)
    requires
        is_minimal_delta(b, s, d),
        !d.full,
    ensures
        apply_model(b, d) == Some(s),
{
    lemma_minimal_delta_applies(b, s, d);
}

} // verus!
