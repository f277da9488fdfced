//! The server side of replication for one client: the acknowledged
//! baseline, the snapshots sent and not yet acknowledged, and the choice
//! between a full resync and a delta.
use vstd::prelude::*;
use crate::differ::{WorldDiff, apply_model, compute_diff, is_full_snapshot, is_minimal_delta};
use crate::world::{
    EntityState, WorldModel, WorldState, has_id, kinds_unique, lemma_entity_at, lemma_entity_push,
    world_model, world_wf,
};

verus! {

/// Most snapshots kept per client while waiting for acknowledgments.
pub const MAX_PENDING: usize = 64;

/// A snapshot sent to a client with the diff of its tick.
pub struct SentSnapshot {
    pub tick: u64,
    pub state: WorldState,
}

/// The last acknowledged tick, when the acknowledgment came, and the world
/// that the diff of that tick leads to. A client applies a delta only on
/// top of the tick it was computed against, so a client that acknowledged
/// the tick holds that world.
pub struct AckedBaseline {
    pub tick: u64,
    pub received_at: u64,
    pub state: WorldState,
}

/// The replication state that the server keeps for one connected client.
pub struct ClientSession {
    client_id: u64,
    acked: Option<AckedBaseline>,
    pending: Vec<SentSnapshot>,
}

/// Whether an acknowledgment received at `received_at` still stands at
/// `now`, given the staleness window.
pub open spec fn is_fresh(received_at: u64, now: u64, window: u64) -> bool {
    now < received_at || now - received_at <= window
}

impl WorldState {
    /// A copy of this state.
    pub fn duplicate(&self) -> (r: WorldState)
        requires
            self.wf(),
        ensures
            r.wf(),
            r@ == self@,
    {
        let mut out: Vec<EntityState> = Vec::new();
        let mut i: usize = 0;
        assert(world_model(out@) =~= world_model(self.entities@.subrange(0, 0)));
        while i < self.entities.len()
            invariant
                i <= self.entities@.len(),
                self.wf(),
                world_wf(out@),
                world_model(out@) == world_model(self.entities@.subrange(0, i as int)),
            decreases self.entities@.len() - i,
        {
            let x = &self.entities[i];
            let e = x.duplicate();
            proof {
                let p = self.entities@.subrange(0, i as int);
                assert(world_wf(p)) by {
                    assert forall|a: int| 0 <= a < p.len() implies kinds_unique(
                        #[trigger] p[a].components@,
                    ) by {
                        assert(p[a] == self.entities@[a]);
                    }
                }
                assert(!has_id(p, x.id)) by {
                    if has_id(p, x.id) {
                        let a = choose|a: int| 0 <= a < p.len() && p[a].id == x.id;
                        assert(self.entities@[a].id == self.entities@[i as int].id);
                    }
                }
                assert(kinds_unique(x.components@));
                lemma_entity_push(p, *x);
                assert(p.push(*x) =~= self.entities@.subrange(0, i + 1));
                assert(!has_id(out@, e.id)) by {
                    if has_id(out@, e.id) {
                        let a = choose|a: int| 0 <= a < out@.len() && out@[a].id == e.id;
                        lemma_entity_at(out@, a);
                    }
                }
                lemma_entity_push(out@, e);
            }
            out.push(e);
            i = i + 1;
        }
        assert(self.entities@.subrange(0, self.entities@.len() as int) =~= self.entities@);
        WorldState { entities: out }
    }
}

impl ClientSession {
    pub closed spec fn wf(&self) -> bool {
        &&& (self.acked matches Some(a) ==> a.state.wf())
        &&& forall|i: int| 0 <= i < self.pending@.len() ==> (#[trigger] self.pending@[i]).state.wf()
        &&& self.pending@.len() <= MAX_PENDING
    }

    pub closed spec fn id_spec(&self) -> u64 {
        self.client_id
    }

    /// The client this session belongs to.
    pub fn client_id(&self) -> (r: u64)
        ensures
            r == self.id_spec(),
    {
        self.client_id
    }

    /// The acknowledged baseline: its tick, when it came, and the world the
    /// client held then.
    pub closed spec fn acked_spec(&self) -> Option<(u64, u64, WorldModel)> {
        match self.acked {
            Some(a) => Some((a.tick, a.received_at, a.state@)),
            None => None,
        }
    }

    /// The snapshots sent and not yet acknowledged, oldest first: the tick
    /// of each diff and the world it leads to.
    pub closed spec fn pending_spec(&self) -> Seq<(u64, WorldModel)> {
        self.pending@.map_values(|p: SentSnapshot| (p.tick, p.state@))
    }

    /// The baseline that the next diff is computed against at `now`.
    pub open spec fn baseline_at(&self, now: u64, window: u64) -> Option<(u64, WorldModel)> {
        match self.acked_spec() {
            Some((t, at, w)) => if is_fresh(at, now, window) {
                Some((t, w))
            } else {
                None
            },
            None => None,
        }
    }

    /// A new connection: no baseline, nothing sent.
    pub fn new(client_id: u64) -> (r: ClientSession)
        ensures
            r.wf(),
            r.id_spec() == client_id,
            r.acked_spec() is None,
            r.pending_spec().len() == 0,
    {
        let r = ClientSession { client_id, acked: None, pending: Vec::new() };
        assert(r.pending_spec() =~= Seq::<(u64, WorldModel)>::empty());
        r
    }

    /// The tick that the next diff is computed against at `now`; `None`
    /// forces a full resync.
    pub fn baseline_tick(&self, now: u64, window: u64) -> (r: Option<u64>)
        ensures
            r == (match self.baseline_at(now, window) {
                Some((t, _)) => Some(t),
                None => None,
            }),
    {
        match &self.acked {
            Some(a) => if now < a.received_at || now - a.received_at <= window {
                Some(a.tick)
            } else {
                None
            },
            None => None,
        }
    }

    /// Records that the client acknowledged the diff of `tick` at `now`.
    /// Where that diff is still pending and newer than the baseline, its
    /// snapshot becomes the baseline and older pending snapshots go;
    /// an acknowledgment of the baseline's own tick refreshes it; any
    /// other is stale and changes nothing.
    pub fn on_ack(&mut self, tick: u64, now: u64)
        requires
            old(self).wf(),
        ensures
            final(self).wf(),
            final(self).id_spec() == old(self).id_spec(),
            ({
                let newer = match old(self).acked_spec() {
                    Some((t, _, _)) => t < tick,
                    None => true,
                };
                if newer && exists|i: int|
                    0 <= i < old(self).pending_spec().len() && (#[trigger] old(
                        self,
                    ).pending_spec()[i]).0 == tick {
                    exists|i: int|
                        0 <= i < old(self).pending_spec().len() && (#[trigger] old(
                            self,
                        ).pending_spec()[i]).0 == tick && final(self).acked_spec() == Some(
                            (tick, now, old(self).pending_spec()[i].1),
                        ) && final(self).pending_spec() == old(self).pending_spec().subrange(
                            i + 1,
                            old(self).pending_spec().len() as int,
                        )
                } else if (match old(self).acked_spec() {
                    Some((t, _, _)) => t == tick,
                    None => false,
                }) {
                    final(self).acked_spec() == (match old(self).acked_spec() {
                        Some((t, _, w)) => Some((t, now, w)),
                        None => None,
                    }) && final(self).pending_spec()
                        == old(self).pending_spec()
                } else {
                    final(self).acked_spec() == old(self).acked_spec() && final(self).pending_spec()
                        == old(self).pending_spec()
                }
            }),
    {
        let newer = match &self.acked {
            Some(a) => a.tick < tick,
            None => true,
        };
        if newer {
            let mut i: usize = 0;
            while i < self.pending.len()
                invariant
                    i <= self.pending@.len(),
                    self.pending@ == old(self).pending@,
                    self.acked == old(self).acked,
                    self.client_id == old(self).client_id,
                    old(self).wf(),
                    match old(self).acked_spec() {
                        Some((t, _, _)) => t < tick,
                        None => true,
                    },
                    forall|j: int| 0 <= j < i ==> self.pending@[j].tick != tick,
                decreases self.pending@.len() - i,
            {
                if self.pending[i].tick == tick {
                    let ghost old_pending = self.pending_spec();
                    let mut rest = self.pending.split_off(i + 1);
                    assert(self.pending@ =~= old(self).pending@.subrange(0, i + 1));
                    let found = self.pending.pop();
                    match found {
                        Some(p) => {
                            assert(p == old(self).pending@[i as int]);
                            self.acked = Some(AckedBaseline { tick, received_at: now, state: p.state });
                        },
                        None => {},
                    }
                    assert(self.acked_spec() == Some((tick, now, old(self).pending_spec()[i as int].1)));
                    std::mem::swap(&mut self.pending, &mut rest);
                    assert(self.pending@ =~= old(self).pending@.subrange(i + 1, old(self).pending@.len() as int));
                    assert(old(self).pending@[i as int].state.wf());
                    assert(self.pending_spec() =~= old_pending.subrange(i + 1, old_pending.len() as int));
                    assert(old(self).pending_spec()[i as int].0 == tick);
                    assert(old(self).pending_spec().len() == old(self).pending@.len());
                    assert(match old(self).acked_spec() {
                        Some((t, _, _)) => t < tick,
                        None => true,
                    });
                    return;
                }
                i = i + 1;
            }
            proof {
                assert forall|j: int| !(0 <= j < old(self).pending_spec().len() && (#[trigger] old(
                    self,
                ).pending_spec()[j]).0 == tick) by {
                    if 0 <= j < old(self).pending_spec().len() {
                        assert(old(self).pending_spec()[j].0 == old(self).pending@[j].tick);
                    }
                }
            }
        }
        match &mut self.acked {
            Some(a) => {
                if a.tick == tick {
                    a.received_at = now;
                }
            },
            None => {},
        }
    }

    /// Computes the diff of `tick` for this client: against the baseline
    /// where one stands at `now`, else a full resync. The snapshot is kept
    /// until acknowledged; the oldest goes where too many are kept.
    pub fn produce(&mut self, current: &WorldState, tick: u64, now: u64, window: u64) -> (d:
        WorldDiff)
        requires
            old(self).wf(),
            current.wf(),
        ensures
            final(self).wf(),
            final(self).id_spec() == old(self).id_spec(),
            final(self).acked_spec() == old(self).acked_spec(),
            d.tick == tick,
            match old(self).baseline_at(now, window) {
                Some((t, b)) => !d.full && d.baseline_tick == t && is_minimal_delta(b, current@, d) && apply_model(b, d)
                    == Some(current@),
                None => is_full_snapshot(current@, d) && forall|w: WorldModel|
                    #[trigger] apply_model(w, d) == Some(current@),
            },
            final(self).pending_spec().last() == (tick, current@),
            old(self).pending_spec().len() < MAX_PENDING ==> final(self).pending_spec()
                == old(self).pending_spec().push((tick, current@)),
            old(self).pending_spec().len() >= MAX_PENDING ==> final(self).pending_spec()
                == old(self).pending_spec().drop_first().push((tick, current@)),
    {
        let fresh = match &self.acked {
            Some(a) => now < a.received_at || now - a.received_at <= window,
            None => false,
        };
        let d = if fresh {
            match &self.acked {
                Some(a) => compute_diff(Some(&a.state), a.tick, current, tick),
                None => compute_diff(None, 0, current, tick),
            }
        } else {
            compute_diff(None, 0, current, tick)
        };
        let ghost before = self.pending_spec();
        if self.pending.len() >= MAX_PENDING {
            self.pending.remove(0);
            assert(self.pending_spec() =~= before.drop_first());
        }
        let ghost mid = self.pending_spec();
        let snap = current.duplicate();
        self.pending.push(SentSnapshot { tick, state: snap });
        assert(self.pending_spec() =~= mid.push((tick, current@)));
        d
    }
}

/// No two sessions belong to the same client.
pub open spec fn session_ids_unique(s: Seq<ClientSession>) -> bool {
    forall|i: int, j: int|
        0 <= i < s.len() && 0 <= j < s.len() && (#[trigger] s[i]).id_spec() == (
        #[trigger] s[j]).id_spec() ==> i == j
}

pub open spec fn has_session(s: Seq<ClientSession>, c: u64) -> bool {
    exists|i: int| 0 <= i < s.len() && (#[trigger] s[i]).id_spec() == c
}

pub open spec fn sessions_wf(s: Seq<ClientSession>) -> bool {
    &&& session_ids_unique(s)
    &&& forall|i: int| 0 <= i < s.len() ==> (#[trigger] s[i]).wf()
}

/// `x` is one of the first `n` sessions of `old_s`, and its client is
/// connected.
pub open spec fn kept_from(old_s: Seq<ClientSession>, n: int, x: ClientSession, connected: Seq<u64>) -> bool {
    exists|i: int| 0 <= i < n && #[trigger] old_s[i] == x && connected.contains(x.id_spec())
}

/// Brings the sessions in line with the connected clients: the session of a
/// client that stays is kept as it was, a client that left loses its
/// session, and a client that came gets a new one.
pub fn sync_sessions(sessions: Vec<ClientSession>, connected: &Vec<u64>) -> (r: Vec<
    ClientSession,
>)
    requires
        sessions_wf(sessions@),
    ensures
        sessions_wf(r@),
        forall|c: u64| #[trigger] has_session(r@, c) <==> connected@.contains(c),
        forall|i: int|
            0 <= i < sessions@.len() && connected@.contains(#[trigger] sessions@[i].id_spec())
                ==> exists|j: int| 0 <= j < r@.len() && r@[j] == sessions@[i],
        forall|j: int|
            0 <= j < r@.len() && !has_session(sessions@, (#[trigger] r@[j]).id_spec())
                ==> r@[j].acked_spec() is None && r@[j].pending_spec().len() == 0,
{
    let ghost old_s = sessions@;
    let mut sessions = sessions;
    let total = sessions.len();
    let mut kept: Vec<ClientSession> = Vec::new();
    let mut n: usize = 0;
    while sessions.len() > 0
        invariant
            total == old_s.len(),
            n + sessions@.len() == old_s.len(),
            sessions@ == old_s.subrange(n as int, old_s.len() as int),
            sessions_wf(old_s),
            sessions_wf(kept@),
            forall|j: int|
                0 <= j < kept@.len() ==> kept_from(old_s, n as int, #[trigger] kept@[j], connected@),
            forall|i: int|
                0 <= i < n && connected@.contains(#[trigger] old_s[i].id_spec()) ==> exists|
                    j: int,
                | 0 <= j < kept@.len() && kept@[j] == old_s[i],
        decreases sessions@.len(),
    {
        let ghost before = sessions@;
        let s = sessions.remove(0);
        assert(s == old_s[n as int]);
        assert(sessions@ =~= old_s.subrange(n + 1, old_s.len() as int));
        let id = s.client_id();
        let mut found = false;
        let mut k: usize = 0;
        while k < connected.len()
            invariant
                k <= connected@.len(),
                found <==> exists|m: int| 0 <= m < k && connected@[m] == id,
            decreases connected@.len() - k,
        {
            if connected[k] == id {
                found = true;
            }
            k = k + 1;
        }
        let ghost kept_before = kept@;
        if found {
            proof {
                assert(connected@.contains(id));
                assert forall|a: int, b: int|
                    0 <= a < kept@.len() + 1 && 0 <= b < kept@.len() + 1 && (#[trigger] kept@.push(
                        s,
                    )[a]).id_spec() == (#[trigger] kept@.push(s)[b]).id_spec() implies a == b by {
                    let t = kept@.push(s);
                    if a < kept@.len() && b < kept@.len() {
                        assert(kept@[a].id_spec() == kept@[b].id_spec());
                    } else if a < kept@.len() || b < kept@.len() {
                        let x = if a < kept@.len() { a } else { b };
                        assert(kept_from(old_s, n as int, kept@[x], connected@));
                        let i = choose|i: int|
                            0 <= i < n && #[trigger] old_s[i] == kept@[x] && connected@.contains(
                                kept@[x].id_spec(),
                            );
                        assert(old_s[i].id_spec() == old_s[n as int].id_spec());
                    }
                }
            }
            kept.push(s);
        } else {
            assert(!connected@.contains(id)) by {
                if connected@.contains(id) {
                    let m = choose|m: int| 0 <= m < connected@.len() && connected@[m] == id;
                }
            }
        }
        proof {
            assert forall|j: int| 0 <= j < kept@.len() implies kept_from(
                old_s,
                n + 1,
                #[trigger] kept@[j],
                connected@,
            ) by {
                if j < kept_before.len() {
                    assert(kept@[j] == kept_before[j]);
                    assert(kept_from(old_s, n as int, kept_before[j], connected@));
                    let i = choose|i: int|
                        0 <= i < n && #[trigger] old_s[i] == kept_before[j] && connected@.contains(
                            kept_before[j].id_spec(),
                        );
                    assert(old_s[i] == kept@[j]);
                } else {
                    assert(old_s[n as int] == kept@[j]);
                }
            }
            assert forall|i: int|
                0 <= i < n + 1 && connected@.contains(#[trigger] old_s[i].id_spec()) implies exists|
                j: int,
            | 0 <= j < kept@.len() && kept@[j] == old_s[i] by {
                if i < n {
                    let j = choose|j: int| 0 <= j < kept_before.len() && kept_before[j] == old_s[i];
                    assert(kept@[j] == kept_before[j]);
                } else {
                    assert(kept@[kept@.len() - 1] == old_s[i]);
                }
            }
        }
        n = n + 1;
    }
    assert(n == old_s.len());
    let ghost kept_all = kept@;
    let mut out = kept;
    let mut k: usize = 0;
    while k < connected.len()
        invariant
            k <= connected@.len(),
            sessions_wf(old_s),
            sessions_wf(out@),
            kept_all.len() <= out@.len(),
            forall|j: int| 0 <= j < kept_all.len() ==> out@[j] == kept_all[j],
            forall|j: int|
                0 <= j < kept_all.len() ==> kept_from(
                    old_s,
                    old_s.len() as int,
                    #[trigger] kept_all[j],
                    connected@,
                ),
            forall|i: int|
                0 <= i < old_s.len() && connected@.contains(#[trigger] old_s[i].id_spec())
                    ==> exists|j: int| 0 <= j < kept_all.len() && kept_all[j] == old_s[i],
            forall|j: int|
                kept_all.len() <= j < out@.len() ==> (#[trigger] out@[j]).acked_spec() is None
                    && out@[j].pending_spec().len() == 0 && !has_session(old_s, out@[j].id_spec())
                    && connected@.contains(out@[j].id_spec()),
            forall|c: u64|
                #[trigger] has_session(out@, c) ==> connected@.contains(c),
            forall|m: int| 0 <= m < k ==> has_session(out@, #[trigger] connected@[m]),
        decreases connected@.len() - k,
    {
        let c = connected[k];
        let mut present = false;
        let mut j: usize = 0;
        while j < out.len()
            invariant
                j <= out@.len(),
                present <==> exists|x: int| 0 <= x < j && (#[trigger] out@[x]).id_spec() == c,
            decreases out@.len() - j,
        {
            if out[j].client_id() == c {
                present = true;
            }
            j = j + 1;
        }
        if !present {
            let ghost before = out@;
            let fresh = ClientSession::new(c);
            proof {
                assert(!has_session(old_s, c)) by {
                    if has_session(old_s, c) {
                        let i = choose|i: int| 0 <= i < old_s.len() && old_s[i].id_spec() == c;
                        assert(connected@.contains(old_s[i].id_spec())) by {
                            assert(connected@[k as int] == c);
                        }
                        let x = choose|x: int| 0 <= x < kept_all.len() && kept_all[x] == old_s[i];
                        assert(out@[x].id_spec() == c);
                    }
                }
            }
            out.push(fresh);
            proof {
                assert forall|a: int, b: int|
                    0 <= a < out@.len() && 0 <= b < out@.len() && (#[trigger] out@[a]).id_spec() == (
                    #[trigger] out@[b]).id_spec() implies a == b by {
                    if a < before.len() && b < before.len() {
                        assert(before[a].id_spec() == before[b].id_spec());
                    } else if a < before.len() {
                        assert(before[a].id_spec() == c);
                    } else if b < before.len() {
                        assert(before[b].id_spec() == c);
                    }
                }
                assert forall|x: int| 0 <= x < out@.len() implies (#[trigger] out@[x]).wf() by {
                    if x < before.len() {
                        assert(out@[x] == before[x]);
                    }
                }
                assert(connected@.contains(c)) by {
                    assert(connected@[k as int] == c);
                }
                assert forall|cc: u64| #[trigger] has_session(out@, cc) implies connected@.contains(
                    cc,
                ) by {
                    let x = choose|x: int| 0 <= x < out@.len() && out@[x].id_spec() == cc;
                    if x < before.len() {
                        assert(before[x].id_spec() == cc);
                        assert(has_session(before, cc));
                    }
                }
                assert forall|m: int| 0 <= m < k + 1 implies has_session(out@, #[trigger] connected@[m]) by {
                    if m < k {
                        assert(has_session(before, connected@[m]));
                        let x = choose|x: int| 0 <= x < before.len() && before[x].id_spec() == connected@[m];
                        assert(out@[x] == before[x]);
                    } else {
                        assert(out@[out@.len() - 1].id_spec() == c);
                    }
                }
            }
        } else {
            proof {
                assert forall|m: int| 0 <= m < k + 1 implies has_session(out@, #[trigger] connected@[m]) by {
                    if m == k {
                        let x = choose|x: int| 0 <= x < j && (#[trigger] out@[x]).id_spec() == c;
                    }
                }
            }
        }
        k = k + 1;
    }
    proof {
        assert forall|c: u64| connected@.contains(c) implies #[trigger] has_session(out@, c) by {
            let m = choose|m: int| 0 <= m < connected@.len() && connected@[m] == c;
        }
        assert forall|i: int|
            0 <= i < old_s.len() && connected@.contains(#[trigger] old_s[i].id_spec())
                implies exists|j: int| 0 <= j < out@.len() && out@[j] == old_s[i] by {
            let j = choose|j: int| 0 <= j < kept_all.len() && kept_all[j] == old_s[i];
            assert(out@[j] == kept_all[j]);
        }
        assert forall|j: int|
            0 <= j < out@.len() && !has_session(old_s, (#[trigger] out@[j]).id_spec())
                implies out@[j].acked_spec() is None && out@[j].pending_spec().len() == 0 by {
            if j < kept_all.len() {
                assert(kept_from(old_s, old_s.len() as int, kept_all[j], connected@));
                let i = choose|i: int|
                    0 <= i < old_s.len() && #[trigger] old_s[i] == kept_all[j] && connected@.contains(
                        kept_all[j].id_spec(),
                    );
                assert(out@[j] == kept_all[j]);
                assert(has_session(old_s, out@[j].id_spec()));
            }
        }
    }
    out
}

} // verus!
