//! The client-side identity map between server entity ids and the ids of
//! the entities that stand for them in the client world.
use std::collections::HashMap;
use vstd::prelude::*;

verus! {

broadcast use vstd::std_specs::hash::group_hash_axioms;

/// A bidirectional table from server entity ids to client entity ids.
///
/// Client ids are handed out by the map itself, each one once.
pub struct NetworkEntityMap {
    server_to_client: HashMap<u64, u64>,
    client_to_server: HashMap<u64, u64>,
    next_client_id: u64,
}

/// One operation on the identity map.
pub enum MapOp {
    Resolve(u64),
    Release(u64),
}

/// No two server ids share a client id.
pub open spec fn injective(m: Map<u64, u64>) -> bool {
    forall|a: u64, b: u64|
        #![trigger m[a], m[b]]
        m.contains_key(a) && m.contains_key(b) && m[a] == m[b] ==> a == b
}

/// `after` is what resolving `s` may leave of `before`: the table unchanged
/// where `s` was known, else `s` added with a client id not in use.
pub open spec fn resolve_step(before: Map<u64, u64>, after: Map<u64, u64>, s: u64) -> bool {
    if before.contains_key(s) {
        after == before
    } else {
        exists|c: u64| !before.values().contains(c) && after == before.insert(s, c)
    }
}

/// `after` is what one operation may leave of `before`.
pub open spec fn op_step(before: Map<u64, u64>, after: Map<u64, u64>, op: MapOp) -> bool {
    match op {
        MapOp::Resolve(s) => resolve_step(before, after, s),
        MapOp::Release(s) => after == before.remove(s),
    }
}

/// A run of operations: `states[i + 1]` follows from `states[i]` by `ops[i]`.
pub open spec fn is_run(states: Seq<Map<u64, u64>>, ops: Seq<MapOp>) -> bool {
    &&& states.len() == ops.len() + 1
    &&& forall|i: int| 0 <= i < ops.len() ==> #[trigger] op_step(states[i], states[i + 1], ops[i])
}

impl View for NetworkEntityMap {
    type V = Map<u64, u64>;

    closed spec fn view(&self) -> Map<u64, u64> {
        self.server_to_client@
    }
}

impl NetworkEntityMap {
    /// Both tables are inverse to each other, and every client id in use is
    /// below the next one to hand out.
    pub closed spec fn wf(&self) -> bool {
        &&& forall|s: u64| #[trigger]
            self.server_to_client@.contains_key(s) ==> self.client_to_server@.contains_key(
                self.server_to_client@[s],
            ) && self.client_to_server@[self.server_to_client@[s]] == s
        &&& forall|c: u64| #[trigger]
            self.client_to_server@.contains_key(c) ==> self.server_to_client@.contains_key(
                self.client_to_server@[c],
            ) && self.server_to_client@[self.client_to_server@[c]] == c && c
                < self.next_client_id
    }

    /// Every client id has been handed out.
    pub closed spec fn exhausted(&self) -> bool {
        self.next_client_id == u64::MAX
    }

    /// How many client ids are still to hand out.
    pub closed spec fn ids_left(&self) -> nat {
        (u64::MAX - self.next_client_id) as nat
    }

    /// A well-formed map is a bijection: no two server ids share a client id.
    pub proof fn lemma_wf_injective(&self)
        requires
            self.wf(),
        ensures
            injective(self@),
    {
    }

    pub fn new() -> (r: NetworkEntityMap)
        ensures
            r.wf(),
            r@ == Map::<u64, u64>::empty(),
            !r.exhausted(),
            r.ids_left() == u64::MAX,
    {
        let r = NetworkEntityMap {
            server_to_client: HashMap::new(),
            client_to_server: HashMap::new(),
            next_client_id: 0,
        };
        assert(r@ =~= Map::<u64, u64>::empty());
        r
    }

    /// The client id of the server entity `s`, handing out a fresh one the
    /// first time `s` is seen. `None` only where `s` is new and no id is
    /// left.
    pub fn resolve(&mut self, s: u64) -> (r: Option<u64>)
        requires
            old(self).wf(),
        ensures
            final(self).wf(),
            r.is_none() <==> (!old(self)@.contains_key(s) && old(self).exhausted()),
            old(self)@.contains_key(s) ==> r == Some(old(self)@[s]) && final(self)@ == old(self)@,
            r is None ==> final(self)@ == old(self)@ && final(self).exhausted(),
            !old(self)@.contains_key(s) && r is Some ==> !old(self)@.values().contains(r->0)
                && final(self)@ == old(self)@.insert(s, r->0),
            resolve_step(old(self)@, final(self)@, s) || r is None,
            old(self).exhausted() <==> old(self).ids_left() == 0,
            final(self).ids_left() + (if old(self)@.contains_key(s) || r is None {
                0int
            } else {
                1int
            }) == old(self).ids_left(),
    {
        match self.server_to_client.get(&s) {
            Some(c) => Some(*c),
            None => {
                if self.next_client_id == u64::MAX {
                    return None;
                }
                let c = self.next_client_id;
                assert(!self.server_to_client@.values().contains(c)) by {
                    if self.server_to_client@.values().contains(c) {
                        let k = choose|k: u64|
                            self.server_to_client@.contains_key(k) && self.server_to_client@[k]
                                == c;
                        assert(self.client_to_server@.contains_key(self.server_to_client@[k]));
                    }
                }
                assert(!self.client_to_server@.contains_key(c));
                self.server_to_client.insert(s, c);
                self.client_to_server.insert(c, s);
                self.next_client_id = c + 1;
                Some(c)
            },
        }
    }

    /// Forgets the server entity `s`; returns the client id it had.
    pub fn release(&mut self, s: u64) -> (r: Option<u64>)
        requires
            old(self).wf(),
        ensures
            final(self).wf(),
            final(self)@ == old(self)@.remove(s),
            r == (if old(self)@.contains_key(s) {
                Some(old(self)@[s])
            } else {
                None
            }),
            final(self).exhausted() == old(self).exhausted(),
            final(self).ids_left() == old(self).ids_left(),
    {
        match self.server_to_client.remove(&s) {
            Some(c) => {
                self.client_to_server.remove(&c);
                Some(c)
            },
            None => None,
        }
    }

    /// The client id of the server entity `s`, if it is known.
    pub fn translate(&self, s: u64) -> (r: Option<u64>)
        requires
            self.wf(),
        ensures
            r == (if self@.contains_key(s) {
                Some(self@[s])
            } else {
                None
            }),
    {
        match self.server_to_client.get(&s) {
            Some(c) => Some(*c),
            None => None,
        }
    }

    /// The server entity that the client id `c` stands for, if any.
    pub fn to_server(&self, c: u64) -> (r: Option<u64>)
        requires
            self.wf(),
        ensures
            match r {
                Some(s) => self@.contains_key(s) && self@[s] == c,
                None => !self@.values().contains(c),
            },
    {
        match self.client_to_server.get(&c) {
            Some(s) => Some(*s),
            None => {
                assert(!self@.values().contains(c)) by {
                    if self@.values().contains(c) {
                        let k = choose|k: u64| self@.contains_key(k) && self@[k] == c;
                        assert(self.client_to_server@.contains_key(self@[k]));
                    }
                }
                None
            },
        }
    }

    /// Number of server entities known.
    pub fn len(&self) -> (r: usize)
        ensures
            r == self@.len(),
    {
        self.server_to_client.len()
    }
}

/// A server entity that an event refers to and that the client does not know.
#[derive(Clone, Copy, Debug, PartialEq, Eq, Structural)]
pub struct MapError(pub u64);

impl NetworkEntityMap {
    /// Translates the server entities `ids` that an event refers to into
    /// client ids, in order. Fails on the first one that is not known.
    pub fn map_to_client(&self, ids: &Vec<u64>) -> (r: Result<Vec<u64>, MapError>)
        requires
            self.wf(),
        ensures
            (r is Ok) <==> (forall|i: int| 0 <= i < ids@.len() ==> self@.contains_key(#[trigger] ids@[i])),
            r matches Ok(v) ==> v@ == ids@.map_values(|s: u64| self@[s]),
            r matches Err(MapError(s)) ==> exists|i: int|
                0 <= i < ids@.len() && #[trigger] ids@[i] == s && !self@.contains_key(s) && forall|j: int|
                    0 <= j < i ==> self@.contains_key(#[trigger] ids@[j]),
    {
        let mut out: Vec<u64> = Vec::new();
        let mut i: usize = 0;
        while i < ids.len()
            invariant
                self.wf(),
                i <= ids@.len(),
                forall|j: int| 0 <= j < i ==> self@.contains_key(#[trigger] ids@[j]),
                out@ == ids@.subrange(0, i as int).map_values(|s: u64| self@[s]),
            decreases ids@.len() - i,
        {
            match self.translate(ids[i]) {
                Some(c) => {
                    out.push(c);
                },
                None => {
                    assert(ids@[i as int] == ids[i as int]);
                    return Err(MapError(ids[i]));
                },
            }
            i = i + 1;
            assert(out@ =~= ids@.subrange(0, i as int).map_values(|s: u64| self@[s]));
        }
        assert(ids@.subrange(0, ids@.len() as int) =~= ids@);
        Ok(out)
    }
}

/// Once the server id `s` stands for the client id `c`, it keeps standing for
/// `c`, in both directions, through any run of operations that does not
/// release `s`; releasing `s` removes it.
pub proof fn lemma_resolution_persists(
    states: Seq<Map<u64, u64>>,
    ops: Seq<MapOp>,
    s: u64,
    c: u64,
)
    requires
        is_run(states, ops),
        injective(states[0]),
        states[0].contains_key(s),
        states[0][s] == c,
        forall|i: int| 0 <= i < ops.len() ==> ops[i] != MapOp::Release(s),
    ensures
        forall|i: int|
            0 <= i < states.len() ==> (#[trigger] states[i]).contains_key(s) && states[i][s] == c
                && injective(states[i]),
    decreases ops.len(),
{
    if ops.len() > 0 {
        let n = ops.len() - 1;
        let pre = states.drop_last();
        let pops = ops.drop_last();
        assert forall|i: int| 0 <= i < pops.len() implies #[trigger] op_step(
            pre[i],
            pre[i + 1],
            pops[i],
        ) by {
            assert(op_step(states[i], states[i + 1], ops[i]));
        }
        lemma_resolution_persists(pre, pops, s, c);
        assert(pre[n] == states[n]);
        assert(op_step(states[n], states[n + 1], ops[n]));
        let before = states[n];
        let after = states[n + 1];
        match ops[n] {
            MapOp::Resolve(x) => {
                if !before.contains_key(x) {
                    let nc = choose|nc: u64|
                        !before.values().contains(nc) && after == before.insert(x, nc);
                    assert forall|a: u64, b: u64|
                        #![trigger after[a], after[b]]
                        after.contains_key(a) && after.contains_key(b) && after[a] == after[b]
                            implies a == b by {
                        if a != x && b == x {
                            assert(before.values().contains(before[a]));
                        }
                        if a == x && b != x {
                            assert(before.values().contains(before[b]));
                        }
                    }
                }
            },
            MapOp::Release(x) => {
                assert(x != s);
            },
        }
        assert forall|i: int| 0 <= i < states.len() implies (#[trigger] states[i]).contains_key(s)
            && states[i][s] == c && injective(states[i]) by {
            if i < states.len() - 1 {
                assert(pre[i] == states[i]);
            }
        }
    }
}

/// After `s` is released the map does not know it.
pub proof fn lemma_release_forgets(before: Map<u64, u64>, after: Map<u64, u64>, s: u64)
    requires
        op_step(before, after, MapOp::Release(s)),
    ensures
        !after.contains_key(s),
{
}

} // verus!
