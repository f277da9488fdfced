//! Replicated world state: entities keyed by server id, each holding
//! serialized component values keyed by component kind.
use vstd::prelude::*;

verus! {

/// The serialized value of one component of an entity.
pub struct ComponentValue {
    pub kind: u32,
    pub data: Vec<u8>,
}

/// One entity and its components.
pub struct EntityState {
    pub id: u64,
    pub components: Vec<ComponentValue>,
}

/// The replicated part of a world, as one side of the connection holds it.
pub struct WorldState {
    pub entities: Vec<EntityState>,
}

/// The meaning of a set of components: kind to serialized value.
pub type ComponentsModel = Map<u32, Seq<u8>>;

/// The meaning of a world: server id to the entity's components.
pub type WorldModel = Map<u64, Map<u32, Seq<u8>>>;

pub open spec fn has_kind(s: Seq<ComponentValue>, k: u32) -> bool {
    exists|i: int| 0 <= i < s.len() && s[i].kind == k
}

pub open spec fn comps_model(s: Seq<ComponentValue>) -> ComponentsModel {
    Map::new(
        |k: u32| has_kind(s, k),
        |k: u32| s[choose|i: int| 0 <= i < s.len() && s[i].kind == k].data@,
    )
}

pub open spec fn kinds_unique(s: Seq<ComponentValue>) -> bool {
    forall|i: int, j: int|
        0 <= i < s.len() && 0 <= j < s.len() && #[trigger] s[i].kind == #[trigger] s[j].kind
            ==> i == j
}

pub open spec fn has_id(s: Seq<EntityState>, id: u64) -> bool {
    exists|i: int| 0 <= i < s.len() && s[i].id == id
}

pub open spec fn world_model(s: Seq<EntityState>) -> WorldModel {
    Map::new(
        |id: u64| has_id(s, id),
        |id: u64| comps_model(s[choose|i: int| 0 <= i < s.len() && s[i].id == id].components@),
    )
}

pub open spec fn ids_unique(s: Seq<EntityState>) -> bool {
    forall|i: int, j: int|
        0 <= i < s.len() && 0 <= j < s.len() && #[trigger] s[i].id == #[trigger] s[j].id ==> i
            == j
}

/// Entity ids are unique, and so are the component kinds of each entity.
pub open spec fn world_wf(s: Seq<EntityState>) -> bool {
    &&& ids_unique(s)
    &&& forall|i: int| 0 <= i < s.len() ==> kinds_unique(#[trigger] s[i].components@)
}

/// What writing the components `cs` in order into `m` gives: a later value
/// of a kind overwrites an earlier one.
pub open spec fn upsert_all(m: ComponentsModel, cs: Seq<ComponentValue>) -> ComponentsModel
    decreases cs.len(),
{
    if cs.len() == 0 {
        m
    } else {
        upsert_all(m, cs.drop_last()).insert(cs.last().kind, cs.last().data@)
    }
}

/// `m` without the kinds in `ks`.
pub open spec fn remove_all<K, V>(m: Map<K, V>, ks: Seq<K>) -> Map<K, V>
    decreases ks.len(),
{
    if ks.len() == 0 {
        m
    } else {
        remove_all(m, ks.drop_last()).remove(ks.last())
    }
}

pub proof fn lemma_remove_all<K, V>(m: Map<K, V>, ks: Seq<K>)
    ensures
        forall|k: K| #[trigger]
            remove_all(m, ks).contains_key(k) <==> m.contains_key(k) && !ks.contains(k),
        forall|k: K| #[trigger] remove_all(m, ks).contains_key(k) ==> remove_all(m, ks)[k] == m[k],
    decreases ks.len(),
{
    if ks.len() > 0 {
        let r = remove_all(m, ks.drop_last());
        lemma_remove_all(m, ks.drop_last());
        assert(remove_all(m, ks) == r.remove(ks.last()));
        assert forall|k: K| #[trigger] ks.contains(k) <==> ks.drop_last().contains(k) || k
            == ks.last() by {
            if ks.contains(k) {
                let i = choose|i: int| 0 <= i < ks.len() && ks[i] == k;
                if i < ks.len() - 1 {
                    assert(ks.drop_last()[i] == k);
                }
            }
            if ks.drop_last().contains(k) {
                let i = choose|i: int| 0 <= i < ks.drop_last().len() && ks.drop_last()[i] == k;
                assert(ks[i] == k);
            }
            if k == ks.last() {
                assert(ks[ks.len() - 1] == k);
            }
        }
        assert forall|k: K| #[trigger] remove_all(m, ks).contains_key(k) <==> m.contains_key(k)
            && !ks.contains(k) by {
            assert(r.contains_key(k) <==> m.contains_key(k) && !ks.drop_last().contains(k));
        }
        assert forall|k: K| #[trigger] remove_all(m, ks).contains_key(k) implies remove_all(
            m,
            ks,
        )[k] == m[k] by {
            assert(r.contains_key(k));
        }
    } else {
        assert forall|k: K| !#[trigger] ks.contains(k) by {}
    }
}

pub proof fn lemma_comps_at(s: Seq<ComponentValue>, i: int)
    requires
        kinds_unique(s),
        0 <= i < s.len(),
    ensures
        comps_model(s).contains_key(s[i].kind),
        comps_model(s)[s[i].kind] == s[i].data@,
{
    let k = s[i].kind;
    assert(has_kind(s, k));
    let j = choose|j: int| 0 <= j < s.len() && s[j].kind == k;
    assert(s[j].kind == s[i].kind);
}

pub proof fn lemma_comps_push(s: Seq<ComponentValue>, c: ComponentValue)
    requires
        kinds_unique(s),
        !has_kind(s, c.kind),
    ensures
        kinds_unique(s.push(c)),
        comps_model(s.push(c)) == comps_model(s).insert(c.kind, c.data@),
{
    let t = s.push(c);
    assert forall|i: int, j: int|
        0 <= i < t.len() && 0 <= j < t.len() && #[trigger] t[i].kind == #[trigger] t[j].kind
            implies i == j by {
        if i < s.len() && j < s.len() {
            assert(s[i].kind == s[j].kind);
        } else if i < s.len() {
            assert(s[i].kind == c.kind);
        } else if j < s.len() {
            assert(s[j].kind == c.kind);
        }
    }
    let m = comps_model(s).insert(c.kind, c.data@);
    assert forall|k: u32| #[trigger] comps_model(t).contains_key(k) <==> m.contains_key(k) by {
        if has_kind(t, k) {
            let i = choose|i: int| 0 <= i < t.len() && t[i].kind == k;
            if i < s.len() {
                assert(s[i].kind == k);
            }
        }
        if has_kind(s, k) {
            let i = choose|i: int| 0 <= i < s.len() && s[i].kind == k;
            assert(t[i].kind == k);
        }
        if k == c.kind {
            assert(t[s.len() as int].kind == k);
        }
    }
    assert forall|k: u32| #[trigger] comps_model(t).contains_key(k) implies comps_model(t)[k]
        == m[k] by {
        let i = choose|i: int| 0 <= i < t.len() && t[i].kind == k;
        lemma_comps_at(t, i);
        if i < s.len() {
            lemma_comps_at(s, i);
            assert(t[i] == s[i]);
        }
    }
    assert(comps_model(t) =~= m);
}

pub proof fn lemma_comps_remove(s: Seq<ComponentValue>, i: int)
    requires
        kinds_unique(s),
        0 <= i < s.len(),
    ensures
        kinds_unique(s.remove(i)),
        !has_kind(s.remove(i), s[i].kind),
        comps_model(s.remove(i)) == comps_model(s).remove(s[i].kind),
{
    let t = s.remove(i);
    let m = comps_model(s).remove(s[i].kind);
    assert forall|a: int, b: int|
        0 <= a < t.len() && 0 <= b < t.len() && #[trigger] t[a].kind == #[trigger] t[b].kind
            implies a == b by {
        let sa = if a < i {
            a
        } else {
            a + 1
        };
        let sb = if b < i {
            b
        } else {
            b + 1
        };
        assert(s[sa].kind == s[sb].kind);
    }
    assert(!has_kind(t, s[i].kind)) by {
        if has_kind(t, s[i].kind) {
            let a = choose|a: int| 0 <= a < t.len() && t[a].kind == s[i].kind;
            let sa = if a < i {
                a
            } else {
                a + 1
            };
            assert(s[sa].kind == s[i].kind);
        }
    }
    assert forall|k: u32| #[trigger] comps_model(t).contains_key(k) <==> m.contains_key(k) by {
        if has_kind(t, k) {
            let a = choose|a: int| 0 <= a < t.len() && t[a].kind == k;
            let sa = if a < i {
                a
            } else {
                a + 1
            };
            assert(s[sa].kind == k);
        }
        if has_kind(s, k) && k != s[i].kind {
            let a = choose|a: int| 0 <= a < s.len() && s[a].kind == k;
            if a < i {
                assert(t[a].kind == k);
            } else {
                assert(t[a - 1].kind == k);
            }
        }
    }
    assert forall|k: u32| #[trigger] comps_model(t).contains_key(k) implies comps_model(t)[k]
        == m[k] by {
        let a = choose|a: int| 0 <= a < t.len() && t[a].kind == k;
        let sa = if a < i {
            a
        } else {
            a + 1
        };
        lemma_comps_at(t, a);
        lemma_comps_at(s, sa);
    }
    assert(comps_model(t) =~= m);
}

pub proof fn lemma_entity_at(s: Seq<EntityState>, i: int)
    requires
        ids_unique(s),
        0 <= i < s.len(),
    ensures
        world_model(s).contains_key(s[i].id),
        world_model(s)[s[i].id] == comps_model(s[i].components@),
{
    let k = s[i].id;
    assert(has_id(s, k));
    let j = choose|j: int| 0 <= j < s.len() && s[j].id == k;
    assert(s[j].id == s[i].id);
}

pub proof fn lemma_entity_push(s: Seq<EntityState>, e: EntityState)
    requires
        world_wf(s),
        kinds_unique(e.components@),
        !has_id(s, e.id),
    ensures
        world_wf(s.push(e)),
        world_model(s.push(e)) == world_model(s).insert(e.id, comps_model(e.components@)),
{
    let t = s.push(e);
    assert forall|i: int, j: int|
        0 <= i < t.len() && 0 <= j < t.len() && #[trigger] t[i].id == #[trigger] t[j].id
            implies i == j by {
        if i < s.len() && j < s.len() {
            assert(s[i].id == s[j].id);
        } else if i < s.len() {
            assert(s[i].id == e.id);
        } else if j < s.len() {
            assert(s[j].id == e.id);
        }
    }
    assert forall|i: int| 0 <= i < t.len() implies kinds_unique(#[trigger] t[i].components@) by {
        if i < s.len() {
            assert(t[i] == s[i]);
        }
    }
    let m = world_model(s).insert(e.id, comps_model(e.components@));
    assert forall|k: u64| #[trigger] world_model(t).contains_key(k) <==> m.contains_key(k) by {
        if has_id(t, k) {
            let i = choose|i: int| 0 <= i < t.len() && t[i].id == k;
            if i < s.len() {
                assert(s[i].id == k);
            }
        }
        if has_id(s, k) {
            let i = choose|i: int| 0 <= i < s.len() && s[i].id == k;
            assert(t[i].id == k);
        }
        if k == e.id {
            assert(t[s.len() as int].id == k);
        }
    }
    assert forall|k: u64| #[trigger] world_model(t).contains_key(k) implies world_model(t)[k]
        == m[k] by {
        let i = choose|i: int| 0 <= i < t.len() && t[i].id == k;
        lemma_entity_at(t, i);
        if i < s.len() {
            lemma_entity_at(s, i);
            assert(t[i] == s[i]);
        }
    }
    assert(world_model(t) =~= m);
}

pub proof fn lemma_entity_remove(s: Seq<EntityState>, i: int)
    requires
        world_wf(s),
        0 <= i < s.len(),
    ensures
        world_wf(s.remove(i)),
        !has_id(s.remove(i), s[i].id),
        world_model(s.remove(i)) == world_model(s).remove(s[i].id),
{
    let t = s.remove(i);
    let m = world_model(s).remove(s[i].id);
    assert forall|a: int, b: int|
        0 <= a < t.len() && 0 <= b < t.len() && #[trigger] t[a].id == #[trigger] t[b].id
            implies a == b by {
        let sa = if a < i {
            a
        } else {
            a + 1
        };
        let sb = if b < i {
            b
        } else {
            b + 1
        };
        assert(s[sa].id == s[sb].id);
    }
    assert forall|a: int| 0 <= a < t.len() implies kinds_unique(#[trigger] t[a].components@) by {
        let sa = if a < i {
            a
        } else {
            a + 1
        };
        assert(t[a] == s[sa]);
    }
    assert(!has_id(t, s[i].id)) by {
        if has_id(t, s[i].id) {
            let a = choose|a: int| 0 <= a < t.len() && t[a].id == s[i].id;
            let sa = if a < i {
                a
            } else {
                a + 1
            };
            assert(s[sa].id == s[i].id);
        }
    }
    assert forall|k: u64| #[trigger] world_model(t).contains_key(k) <==> m.contains_key(k) by {
        if has_id(t, k) {
            let a = choose|a: int| 0 <= a < t.len() && t[a].id == k;
            let sa = if a < i {
                a
            } else {
                a + 1
            };
            assert(s[sa].id == k);
        }
        if has_id(s, k) && k != s[i].id {
            let a = choose|a: int| 0 <= a < s.len() && s[a].id == k;
            if a < i {
                assert(t[a].id == k);
            } else {
                assert(t[a - 1].id == k);
            }
        }
    }
    assert forall|k: u64| #[trigger] world_model(t).contains_key(k) implies world_model(t)[k]
        == m[k] by {
        let a = choose|a: int| 0 <= a < t.len() && t[a].id == k;
        let sa = if a < i {
            a
        } else {
            a + 1
        };
        lemma_entity_at(t, a);
        lemma_entity_at(s, sa);
    }
    assert(world_model(t) =~= m);
}

pub proof fn lemma_upsert_all_unique(m: ComponentsModel, cs: Seq<ComponentValue>)
    requires
        kinds_unique(cs),
    ensures
        upsert_all(m, cs) == m.union_prefer_right(comps_model(cs)),
    decreases cs.len(),
{
    if cs.len() == 0 {
        assert(comps_model(cs) =~= Map::<u32, Seq<u8>>::empty());
        assert(m.union_prefer_right(comps_model(cs)) =~= m);
    } else {
        let p = cs.drop_last();
        let c = cs.last();
        assert(kinds_unique(p));
        assert(!has_kind(p, c.kind)) by {
            if has_kind(p, c.kind) {
                let i = choose|i: int| 0 <= i < p.len() && p[i].kind == c.kind;
                assert(cs[i].kind == cs[cs.len() - 1].kind);
            }
        }
        lemma_upsert_all_unique(m, p);
        lemma_comps_push(p, c);
        assert(p.push(c) =~= cs);
        assert(m.union_prefer_right(comps_model(cs)) =~= m.union_prefer_right(
            comps_model(p),
        ).insert(c.kind, c.data@));
    }
}

/// A well-formed world holds as many entities as its list has entries.
pub proof fn lemma_world_len(s: Seq<EntityState>)
    requires
        world_wf(s),
    ensures
        world_model(s).dom().finite(),
        world_model(s).dom().len() == s.len(),
    decreases s.len(),
{
    if s.len() == 0 {
        assert(world_model(s).dom() =~= Set::<u64>::empty());
    } else {
        let p = s.drop_last();
        let e = s.last();
        assert(world_wf(p)) by {
            assert forall|i: int| 0 <= i < p.len() implies kinds_unique(#[trigger] p[i].components@) by {
                assert(p[i] == s[i]);
            }
        }
        assert(kinds_unique(e.components@));
        assert(!has_id(p, e.id)) by {
            if has_id(p, e.id) {
                let i = choose|i: int| 0 <= i < p.len() && p[i].id == e.id;
                assert(s[i].id == s[s.len() - 1].id);
            }
        }
        lemma_world_len(p);
        lemma_entity_push(p, e);
        assert(p.push(e) =~= s);
        assert(world_model(s).dom() =~= world_model(p).dom().insert(e.id));
    }
}

/// Copies a byte string.
pub fn copy_bytes(v: &Vec<u8>) -> (r: Vec<u8>)
    ensures
        r@ == v@,
{
    let mut r: Vec<u8> = Vec::new();
    let mut i: usize = 0;
    while i < v.len()
        invariant
            i <= v@.len(),
            r@ == v@.subrange(0, i as int),
        decreases v@.len() - i,
    {
        r.push(v[i]);
        i = i + 1;
        assert(r@ =~= v@.subrange(0, i as int));
    }
    assert(v@.subrange(0, v@.len() as int) =~= v@);
    r
}

/// Whether two byte strings are equal.
pub fn bytes_eq(a: &Vec<u8>, b: &Vec<u8>) -> (r: bool)
    ensures
        r == (a@ == b@),
{
    if a.len() != b.len() {
        return false;
    }
    let mut i: usize = 0;
    while i < a.len()
        invariant
            i <= a@.len(),
            a@.len() == b@.len(),
            a@.subrange(0, i as int) == b@.subrange(0, i as int),
        decreases a@.len() - i,
    {
        if a[i] != b[i] {
            assert(a@[i as int] != b@[i as int]);
            return false;
        }
        assert(a@.subrange(0, i + 1) =~= a@.subrange(0, i as int).push(a@[i as int]));
        assert(b@.subrange(0, i + 1) =~= b@.subrange(0, i as int).push(b@[i as int]));
        i = i + 1;
    }
    assert(a@.subrange(0, a@.len() as int) =~= a@);
    assert(b@.subrange(0, b@.len() as int) =~= b@);
    true
}

impl ComponentValue {
    /// A copy of this component.
    pub fn duplicate(&self) -> (r: ComponentValue)
        ensures
            r.kind == self.kind,
            r.data@ == self.data@,
    {
        ComponentValue { kind: self.kind, data: copy_bytes(&self.data) }
    }
}

/// The index of the component of kind `k`, if there is one.
pub fn find_kind(s: &Vec<ComponentValue>, k: u32) -> (r: Option<usize>)
    ensures
        match r {
            Some(i) => i < s@.len() && s@[i as int].kind == k,
            None => !has_kind(s@, k),
        },
{
    let mut i: usize = 0;
    while i < s.len()
        invariant
            i <= s@.len(),
            forall|j: int| 0 <= j < i ==> s@[j].kind != k,
        decreases s@.len() - i,
    {
        if s[i].kind == k {
            return Some(i);
        }
        i = i + 1;
    }
    None
}

/// The index of the entity with id `id`, if there is one.
pub fn find_entity(s: &Vec<EntityState>, id: u64) -> (r: Option<usize>)
    ensures
        match r {
            Some(i) => i < s@.len() && s@[i as int].id == id,
            None => !has_id(s@, id),
        },
{
    let mut i: usize = 0;
    while i < s.len()
        invariant
            i <= s@.len(),
            forall|j: int| 0 <= j < i ==> s@[j].id != id,
        decreases s@.len() - i,
    {
        if s[i].id == id {
            return Some(i);
        }
        i = i + 1;
    }
    None
}

/// Writes `c` into `s`, replacing the component of the same kind.
pub fn upsert_component(s: &mut Vec<ComponentValue>, c: ComponentValue)
    requires
        kinds_unique(old(s)@),
    ensures
        kinds_unique(final(s)@),
        comps_model(final(s)@) == comps_model(old(s)@).insert(c.kind, c.data@),
{
    match find_kind(s, c.kind) {
        Some(i) => {
            proof {
                lemma_comps_remove(s@, i as int);
            }
            s.remove(i);
        },
        None => {},
    }
    proof {
        lemma_comps_push(s@, c);
    }
    s.push(c);
    assert(comps_model(s@) =~= comps_model(old(s)@).insert(c.kind, c.data@));
}

/// Writes the components `cs` in order into `s`.
pub fn upsert_components(s: &mut Vec<ComponentValue>, cs: &Vec<ComponentValue>)
    requires
        kinds_unique(old(s)@),
    ensures
        kinds_unique(final(s)@),
        comps_model(final(s)@) == upsert_all(comps_model(old(s)@), cs@),
{
    let mut i: usize = 0;
    while i < cs.len()
        invariant
            i <= cs@.len(),
            kinds_unique(s@),
            comps_model(s@) == upsert_all(comps_model(old(s)@), cs@.subrange(0, i as int)),
        decreases cs@.len() - i,
    {
        let c = cs[i].duplicate();
        assert(cs@.subrange(0, i + 1).drop_last() =~= cs@.subrange(0, i as int));
        upsert_component(s, c);
        i = i + 1;
    }
    assert(cs@.subrange(0, cs@.len() as int) =~= cs@);
}

/// Removes from `s` the components whose kinds are in `ks`.
pub fn remove_components(s: &mut Vec<ComponentValue>, ks: &Vec<u32>)
    requires
        kinds_unique(old(s)@),
    ensures
        kinds_unique(final(s)@),
        comps_model(final(s)@) == remove_all(comps_model(old(s)@), ks@),
{
    let mut i: usize = 0;
    while i < ks.len()
        invariant
            i <= ks@.len(),
            kinds_unique(s@),
            comps_model(s@) == remove_all(comps_model(old(s)@), ks@.subrange(0, i as int)),
        decreases ks@.len() - i,
    {
        let k = ks[i];
        assert(ks@.subrange(0, i + 1).drop_last() =~= ks@.subrange(0, i as int));
        match find_kind(s, k) {
            Some(j) => {
                proof {
                    lemma_comps_remove(s@, j as int);
                }
                s.remove(j);
            },
            None => {
                assert(comps_model(s@).remove(k) =~= comps_model(s@));
            },
        }
        i = i + 1;
    }
    assert(ks@.subrange(0, ks@.len() as int) =~= ks@);
}

impl View for WorldState {
    type V = WorldModel;

    open spec fn view(&self) -> WorldModel {
        world_model(self.entities@)
    }
}

impl WorldState {
    pub open spec fn wf(&self) -> bool {
        world_wf(self.entities@)
    }

    pub fn new() -> (r: WorldState)
        ensures
            r.wf(),
            r@ == Map::<u64, Map<u32, Seq<u8>>>::empty(),
    {
        let r = WorldState { entities: Vec::new() };
        assert(r@ =~= Map::<u64, Map<u32, Seq<u8>>>::empty());
        r
    }

    /// Takes the entity `id` out, if it is there.
    pub fn take_entity(&mut self, id: u64) -> (r: Option<EntityState>)
        requires
            old(self).wf(),
        ensures
            final(self).wf(),
            final(self)@ == old(self)@.remove(id),
            !has_id(final(self).entities@, id),
            match r {
                Some(e) => e.id == id && old(self)@.contains_key(id) && kinds_unique(
                    e.components@,
                ) && comps_model(e.components@) == old(self)@[id],
                None => !old(self)@.contains_key(id),
            },
    {
        match find_entity(&self.entities, id) {
            Some(i) => {
                proof {
                    lemma_entity_at(self.entities@, i as int);
                    lemma_entity_remove(self.entities@, i as int);
                }
                let e = self.entities.remove(i);
                Some(e)
            },
            None => {
                assert(self@.remove(id) =~= self@);
                None
            },
        }
    }

    /// Puts the entity `e` in, replacing the entity with the same id.
    pub fn put_entity(&mut self, e: EntityState)
        requires
            old(self).wf(),
            kinds_unique(e.components@),
        ensures
            final(self).wf(),
            final(self)@ == old(self)@.insert(e.id, comps_model(e.components@)),
    {
        let id = e.id;
        let _ = self.take_entity(id);
        proof {
            lemma_entity_push(self.entities@, e);
        }
        self.entities.push(e);
        assert(self@ =~= old(self)@.insert(id, comps_model(e.components@)));
    }

    /// Whether the entity `id` is held.
    pub fn contains_entity(&self, id: u64) -> (r: bool)
        ensures
            r == self@.contains_key(id),
    {
        find_entity(&self.entities, id).is_some()
    }

    /// The value of the component `kind` of the entity `id`, if both are
    /// held.
    pub fn component(&self, id: u64, kind: u32) -> (r: Option<Vec<u8>>)
        requires
            self.wf(),
        ensures
            match r {
                Some(v) => self@.contains_key(id) && self@[id].contains_key(kind) && self@[id][kind]
                    == v@,
                None => !(self@.contains_key(id) && self@[id].contains_key(kind)),
            },
    {
        match find_entity(&self.entities, id) {
            Some(i) => {
                proof {
                    lemma_entity_at(self.entities@, i as int);
                }
                let e = &self.entities[i];
                match find_kind(&e.components, kind) {
                    Some(j) => {
                        proof {
                            lemma_comps_at(e.components@, j as int);
                        }
                        Some(copy_bytes(&e.components[j].data))
                    },
                    None => None,
                }
            },
            None => None,
        }
    }
}

/// Whether the kinds of `s` are unique.
pub fn check_kinds_unique(s: &Vec<ComponentValue>) -> (r: bool)
    ensures
        r == kinds_unique(s@),
{
    let mut i: usize = 0;
    while i < s.len()
        invariant
            i <= s@.len(),
            forall|a: int, b: int|
                0 <= a < i && 0 <= b < s@.len() && #[trigger] s@[a].kind == #[trigger] s@[b].kind
                    ==> a == b,
        decreases s@.len() - i,
    {
        let mut j: usize = 0;
        while j < s.len()
            invariant
                i < s@.len(),
                j <= s@.len(),
                forall|a: int, b: int|
                    0 <= a < i && 0 <= b < s@.len() && #[trigger] s@[a].kind == #[trigger] s@[b].kind
                        ==> a == b,
                forall|b: int| 0 <= b < j && s@[i as int].kind == #[trigger] s@[b].kind ==> b == i,
            decreases s@.len() - j,
        {
            if j != i && s[i].kind == s[j].kind {
                assert(!kinds_unique(s@)) by {
                    assert(s@[i as int].kind == s@[j as int].kind);
                }
                return false;
            }
            j = j + 1;
        }
        i = i + 1;
    }
    true
}

impl WorldState {
    /// Whether this state is well formed: entity ids unique, and component
    /// kinds unique within each entity.
    pub fn check_wf(&self) -> (r: bool)
        ensures
            r == self.wf(),
    {
        let mut i: usize = 0;
        while i < self.entities.len()
            invariant
                i <= self.entities@.len(),
                forall|a: int| 0 <= a < i ==> kinds_unique(#[trigger] self.entities@[a].components@),
                forall|a: int, b: int|
                    0 <= a < i && 0 <= b < self.entities@.len() && #[trigger] self.entities@[a].id == #[trigger] self.entities@[b].id
                        ==> a == b,
            decreases self.entities@.len() - i,
        {
            if !check_kinds_unique(&self.entities[i].components) {
                assert(!self.wf()) by {
                    if world_wf(self.entities@) {
                        assert(kinds_unique(self.entities@[i as int].components@));
                    }
                }
                return false;
            }
            let mut j: usize = 0;
            while j < self.entities.len()
                invariant
                    i < self.entities@.len(),
                    j <= self.entities@.len(),
                    forall|a: int, b: int|
                        0 <= a < i && 0 <= b < self.entities@.len() && #[trigger] self.entities@[a].id == #[trigger] self.entities@[b].id
                            ==> a == b,
                    forall|b: int| 0 <= b < j && self.entities@[i as int].id == #[trigger] self.entities@[b].id ==> b == i,
                decreases self.entities@.len() - j,
            {
                if j != i && self.entities[i].id == self.entities[j].id {
                    assert(!ids_unique(self.entities@)) by {
                        assert(self.entities@[i as int].id == self.entities@[j as int].id);
                    }
                    assert(!self.wf());
                    return false;
                }
                j = j + 1;
            }
            i = i + 1;
        }
        true
    }
}

} // verus!
