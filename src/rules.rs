//! Replication rules: which component kinds replicate, and which are held
//! back while a marker kind is present on the same entity.
use vstd::prelude::*;
use crate::world::{
    ComponentValue, ComponentsModel, EntityState, WorldModel, WorldState, comps_model, has_id,
    has_kind, kinds_unique, lemma_comps_at, lemma_comps_push, lemma_entity_at, lemma_entity_push,
    world_model, world_wf, find_kind,
};
use crate::differ::{WorldDiff, records_within, value_within};

verus! {

/// The registered kinds, and the pairs `(kind, marker)` where `kind` is held
/// back while `marker` is present.
pub type RulesModel = (Set<u32>, Set<(u32, u32)>);

/// The registry of replication rules, built once at startup.
pub struct ReplicationRules {
    replicated: Vec<u32>,
    exclusions: Vec<(u32, u32)>,
}

/// A component of kind `k` replicates on an entity whose kinds are `present`:
/// its kind is registered and no exclusion on it holds there.
pub open spec fn eligible(rules: RulesModel, present: Set<u32>, k: u32) -> bool {
    &&& rules.0.contains(k)
    &&& !exists|m: u32| #[trigger] rules.1.contains((k, m)) && present.contains(m)
}

/// The replicated part of one entity's components.
pub open spec fn eligible_model(rules: RulesModel, cm: ComponentsModel) -> ComponentsModel {
    Map::new(|k: u32| cm.contains_key(k) && eligible(rules, cm.dom(), k), |k: u32| cm[k])
}

/// The replicated part of a world of entities marked for replication.
pub open spec fn snapshot_model(rules: RulesModel, host: WorldModel) -> WorldModel {
    Map::new(|id: u64| host.contains_key(id), |id: u64| eligible_model(rules, host[id]))
}

impl View for ReplicationRules {
    type V = RulesModel;

    closed spec fn view(&self) -> RulesModel {
        (self.replicated@.to_set(), self.exclusions@.to_set())
    }
}

impl ReplicationRules {
    pub fn new() -> (r: ReplicationRules)
        ensures
            r@.0 == Set::<u32>::empty(),
            r@.1 == Set::<(u32, u32)>::empty(),
    {
        let r = ReplicationRules { replicated: Vec::new(), exclusions: Vec::new() };
        assert(r@.0 =~= Set::<u32>::empty());
        assert(r@.1 =~= Set::<(u32, u32)>::empty());
        r
    }

    /// Marks the kind `k` for replication. Registering twice changes nothing.
    pub fn replicate(&mut self, k: u32)
        ensures
            final(self)@.0 == old(self)@.0.insert(k),
            final(self)@.1 == old(self)@.1,
    {
        if !self.replicates(k) {
            self.replicated.push(k);
            assert(self@.0 =~= old(self)@.0.insert(k)) by {
                assert(self.replicated@ == old(self).replicated@.push(k));
                assert forall|x: u32| self@.0.contains(x) <==> old(self)@.0.insert(k).contains(x) by {
                    if self.replicated@.contains(x) && x != k {
                        let j = choose|j: int| 0 <= j < self.replicated@.len() && self.replicated@[j] == x;
                        assert(old(self).replicated@[j] == x);
                    }
                    if old(self).replicated@.contains(x) {
                        let j = choose|j: int| 0 <= j < old(self).replicated@.len() && old(self).replicated@[j] == x;
                        assert(self.replicated@[j] == x);
                    }
                    if x == k {
                        assert(self.replicated@[self.replicated@.len() - 1] == x);
                    }
                }
            }
        } else {
            assert(self@.0 =~= old(self)@.0.insert(k));
        }
    }

    /// Holds the kind `k` back on entities where `marker` is present.
    /// Adding the same pair twice changes nothing.
    pub fn not_replicate_if_present(&mut self, k: u32, marker: u32)
        ensures
            final(self)@.0 == old(self)@.0,
            final(self)@.1 == old(self)@.1.insert((k, marker)),
    {
        let mut i: usize = 0;
        while i < self.exclusions.len()
            invariant
                i <= self.exclusions@.len(),
                forall|j: int| 0 <= j < i ==> self.exclusions@[j] != (k, marker),
            decreases self.exclusions@.len() - i,
        {
            let (a, b) = self.exclusions[i];
            if a == k && b == marker {
                assert(self@.1 =~= old(self)@.1.insert((k, marker)));
                return;
            }
            i = i + 1;
        }
        self.exclusions.push((k, marker));
        let e = (k, marker);
        assert(self@.1 =~= old(self)@.1.insert(e)) by {
            assert forall|x: (u32, u32)| self@.1.contains(x) <==> old(self)@.1.insert(e).contains(x) by {
                if self.exclusions@.contains(x) && x != e {
                    let j = choose|j: int| 0 <= j < self.exclusions@.len() && self.exclusions@[j] == x;
                    assert(old(self).exclusions@[j] == x);
                }
                if old(self).exclusions@.contains(x) {
                    let j = choose|j: int| 0 <= j < old(self).exclusions@.len() && old(self).exclusions@[j] == x;
                    assert(self.exclusions@[j] == x);
                }
                if x == e {
                    assert(self.exclusions@[self.exclusions@.len() - 1] == x);
                }
            }
        }
    }

    /// Whether the kind `k` is registered.
    pub fn replicates(&self, k: u32) -> (r: bool)
        ensures
            r == self@.0.contains(k),
    {
        let mut i: usize = 0;
        while i < self.replicated.len()
            invariant
                i <= self.replicated@.len(),
                forall|j: int| 0 <= j < i ==> self.replicated@[j] != k,
            decreases self.replicated@.len() - i,
        {
            if self.replicated[i] == k {
                assert(self.replicated@.contains(k));
                return true;
            }
            i = i + 1;
        }
        false
    }

    /// Whether the component of kind `k` replicates on an entity with the
    /// components `present`.
    pub fn is_eligible(&self, present: &Vec<ComponentValue>, k: u32) -> (r: bool)
        ensures
            r == eligible(self@, comps_model(present@).dom(), k),
    {
        if !self.replicates(k) {
            return false;
        }
        let mut i: usize = 0;
        while i < self.exclusions.len()
            invariant
                i <= self.exclusions@.len(),
                forall|j: int|
                    0 <= j < i && (#[trigger] self.exclusions@[j]).0 == k ==> !has_kind(
                        present@,
                        self.exclusions@[j].1,
                    ),
            decreases self.exclusions@.len() - i,
        {
            let (a, m) = self.exclusions[i];
            if a == k {
                match find_kind(present, m) {
                    Some(_) => {
                        assert(self@.1.contains((k, m)) && comps_model(present@).dom().contains(m)) by {
                            assert(self.exclusions@[i as int] == (k, m));
                        }
                        return false;
                    },
                    None => {},
                }
            }
            i = i + 1;
        }
        assert forall|m: u32| !(#[trigger] self@.1.contains((k, m)) && comps_model(present@).dom().contains(m)) by {
            if self.exclusions@.contains((k, m)) {
                let j = choose|j: int| 0 <= j < self.exclusions@.len() && self.exclusions@[j] == (k, m);
                assert(self.exclusions@[j].0 == k);
            }
        }
        true
    }

    /// The replicated part of one entity's components.
    pub fn eligible_components(&self, present: &Vec<ComponentValue>) -> (r: Vec<ComponentValue>)
        requires
            kinds_unique(present@),
        ensures
            kinds_unique(r@),
            comps_model(r@) == eligible_model(self@, comps_model(present@)),
    {
        let ghost full = comps_model(present@);
        let mut out: Vec<ComponentValue> = Vec::new();
        let mut i: usize = 0;
        assert(comps_model(out@) =~= Map::new(
            |k: u32| comps_model(present@.subrange(0, 0)).contains_key(k) && eligible(self@, full.dom(), k),
            |k: u32| comps_model(present@.subrange(0, 0))[k],
        ));
        while i < present.len()
            invariant
                i <= present@.len(),
                kinds_unique(present@),
                full == comps_model(present@),
                kinds_unique(out@),
                comps_model(out@) == Map::new(
                    |k: u32| comps_model(present@.subrange(0, i as int)).contains_key(k) && eligible(self@, full.dom(), k),
                    |k: u32| comps_model(present@.subrange(0, i as int))[k],
                ),
            decreases present@.len() - i,
        {
            let c = &present[i];
            proof {
                let p = present@.subrange(0, i as int);
                assert(kinds_unique(p));
                assert(!has_kind(p, c.kind)) by {
                    if has_kind(p, c.kind) {
                        let j = choose|j: int| 0 <= j < p.len() && p[j].kind == c.kind;
                        assert(present@[j].kind == present@[i as int].kind);
                    }
                }
                lemma_comps_push(p, *c);
                assert(p.push(*c) =~= present@.subrange(0, i + 1));
            }
            if self.is_eligible(present, c.kind) {
                proof {
                    assert(!has_kind(out@, c.kind)) by {
                        if has_kind(out@, c.kind) {
                            let j = choose|j: int| 0 <= j < out@.len() && out@[j].kind == c.kind;
                            lemma_comps_at(out@, j);
                        }
                    }
                }
                let dup = c.duplicate();
                proof {
                    lemma_comps_push(out@, dup);
                }
                out.push(dup);
            }
            i = i + 1;
            assert(comps_model(out@) =~= Map::new(
                |k: u32| comps_model(present@.subrange(0, i as int)).contains_key(k) && eligible(self@, full.dom(), k),
                |k: u32| comps_model(present@.subrange(0, i as int))[k],
            ));
        }
        assert(present@.subrange(0, present@.len() as int) =~= present@);
        assert(comps_model(out@) =~= eligible_model(self@, full));
        out
    }

    /// The replicated part of `host`, the entities marked for replication.
    pub fn collect(&self, host: &WorldState) -> (r: WorldState)
        requires
            host.wf(),
        ensures
            r.wf(),
            r@ == snapshot_model(self@, host@),
    {
        let mut out: Vec<EntityState> = Vec::new();
        let mut i: usize = 0;
        assert(world_model(out@) =~= snapshot_model(self@, world_model(host.entities@.subrange(0, 0))));
        while i < host.entities.len()
            invariant
                i <= host.entities@.len(),
                host.wf(),
                world_wf(out@),
                world_model(out@) == snapshot_model(self@, world_model(host.entities@.subrange(0, i as int))),
            decreases host.entities@.len() - i,
        {
            let x = &host.entities[i];
            let ghost p = host.entities@.subrange(0, i as int);
            proof {
                assert(world_wf(p)) by {
                    assert forall|a: int| 0 <= a < p.len() implies kinds_unique(#[trigger] p[a].components@) by {
                        assert(p[a] == host.entities@[a]);
                    }
                }
                assert(!has_id(p, x.id)) by {
                    if has_id(p, x.id) {
                        let a = choose|a: int| 0 <= a < p.len() && p[a].id == x.id;
                        assert(host.entities@[a].id == host.entities@[i as int].id);
                    }
                }
                assert(kinds_unique(x.components@));
                lemma_entity_push(p, *x);
                assert(p.push(*x) =~= host.entities@.subrange(0, i + 1));
            }
            let comps = self.eligible_components(&x.components);
            let e = EntityState { id: x.id, components: comps };
            proof {
                assert(!has_id(out@, e.id)) by {
                    if has_id(out@, e.id) {
                        let a = choose|a: int| 0 <= a < out@.len() && out@[a].id == e.id;
                        lemma_entity_at(out@, a);
                    }
                }
                lemma_entity_push(out@, e);
            }
            out.push(e);
            i = i + 1;
            assert(world_model(out@) =~= snapshot_model(self@, world_model(host.entities@.subrange(0, i as int))));
        }
        assert(host.entities@.subrange(0, host.entities@.len() as int) =~= host.entities@);
        WorldState { entities: out }
    }
}

/// Exclusion precedence: where an entity carries both a kind and a marker
/// that holds that kind back, no diff of the replicated world carries that
/// kind for that entity, whatever order the two were inserted in.
pub proof fn lemma_exclusion_precedence(
    rules: RulesModel,
    host: WorldModel,
    d: WorldDiff,
    e: u64,
    k: u32,
    marker: u32,
)
    requires
        rules.1.contains((k, marker)),
        host.contains_key(e),
        host[e].contains_key(marker),
        records_within(snapshot_model(rules, host), d),
    ensures
        forall|j: int, c: int|
            0 <= j < d.spawns@.len() && 0 <= c < d.spawns@[j].components@.len()
                && d.spawns@[j].id == e ==> (#[trigger] d.spawns@[j].components@[c]).kind != k,
        forall|j: int, c: int|
            0 <= j < d.updates@.len() && 0 <= c < d.updates@[j].changed@.len()
                && d.updates@[j].id == e ==> (#[trigger] d.updates@[j].changed@[c]).kind != k,
{
    let s = snapshot_model(rules, host);
    assert(!s[e].contains_key(k));
    assert forall|j: int, c: int|
        0 <= j < d.spawns@.len() && 0 <= c < d.spawns@[j].components@.len()
            && d.spawns@[j].id == e implies (#[trigger] d.spawns@[j].components@[c]).kind != k by {
        assert(value_within(s, d.spawns@[j].id, d.spawns@[j].components@[c]));
    }
    assert forall|j: int, c: int|
        0 <= j < d.updates@.len() && 0 <= c < d.updates@[j].changed@.len()
            && d.updates@[j].id == e implies (#[trigger] d.updates@[j].changed@[c]).kind != k by {
        assert(value_within(s, d.updates@[j].id, d.updates@[j].changed@[c]));
    }
}

} // verus!
