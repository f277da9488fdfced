//! Reading diffs back from bytes: the format as a parser over byte
//! sequences, the law that it reads back what was encoded, and the reader.
use vstd::prelude::*;
use crate::codec::{
    enc_comp, enc_comp_items, enc_comps, enc_entity, enc_entity_items, enc_u32_items,
    enc_u64_items, enc_update, enc_update_items, encode_diff_spec, from_le4, from_le8, le4, le8,
    len8, lemma_le4_round_trip, lemma_le8_round_trip, read_u32, read_u64,
};
use crate::differ::{
    EntityUpdate, WorldDiff, apply_model, spawn_all, update_all, update_entity,
};
use crate::world::{WorldModel, ComponentsModel, upsert_all};
use crate::world::{ComponentValue, EntityState};

verus! {

pub type CompV = (u32, Seq<u8>);

pub type EntityV = (u64, Seq<CompV>);

pub type UpdateV = (u64, Seq<CompV>, Seq<u32>);

pub type DiffV = (u64, bool, u64, Seq<EntityV>, Seq<UpdateV>, Seq<u64>);

pub open spec fn comp_v(c: ComponentValue) -> CompV {
    (c.kind, c.data@)
}

pub open spec fn comps_v(cs: Seq<ComponentValue>) -> Seq<CompV> {
    cs.map_values(|c: ComponentValue| comp_v(c))
}

pub open spec fn entity_v(e: EntityState) -> EntityV {
    (e.id, comps_v(e.components@))
}

pub open spec fn update_v(u: EntityUpdate) -> UpdateV {
    (u.id, comps_v(u.changed@), u.removed@)
}

/// The plain content of a diff.
pub open spec fn diff_v(d: WorldDiff) -> DiffV {
    (
        d.tick,
        d.full,
        d.baseline_tick,
        d.spawns@.map_values(|e: EntityState| entity_v(e)),
        d.updates@.map_values(|u: EntityUpdate| update_v(u)),
        d.despawns@,
    )
}

pub open spec fn p_u32(b: Seq<u8>, pos: int) -> Option<(u32, int)> {
    if 0 <= pos && pos + 4 <= b.len() {
        Some((from_le4(b.subrange(pos, pos + 4)), pos + 4))
    } else {
        None
    }
}

pub open spec fn p_u64(b: Seq<u8>, pos: int) -> Option<(u64, int)> {
    if 0 <= pos && pos + 8 <= b.len() {
        Some((from_le8(b.subrange(pos, pos + 8)), pos + 8))
    } else {
        None
    }
}

pub open spec fn p_comp(b: Seq<u8>, pos: int) -> Option<(CompV, int)> {
    match p_u32(b, pos) {
        Some((k, q)) => match p_u64(b, q) {
            Some((n, r)) => if r + n <= b.len() {
                Some(((k, b.subrange(r, r + n)), r + n))
            } else {
                None
            },
            None => None,
        },
        None => None,
    }
}

pub open spec fn p_comp_items(b: Seq<u8>, pos: int, n: nat) -> Option<(Seq<CompV>, int)>
    decreases n,
{
    if n == 0 {
        Some((Seq::empty(), pos))
    } else {
        match p_comp_items(b, pos, (n - 1) as nat) {
            Some((xs, q)) => match p_comp(b, q) {
                Some((x, r)) => Some((xs.push(x), r)),
                None => None,
            },
            None => None,
        }
    }
}

pub open spec fn p_comps(b: Seq<u8>, pos: int) -> Option<(Seq<CompV>, int)> {
    match p_u64(b, pos) {
        Some((n, q)) => p_comp_items(b, q, n as nat),
        None => None,
    }
}

pub open spec fn p_entity(b: Seq<u8>, pos: int) -> Option<(EntityV, int)> {
    match p_u64(b, pos) {
        Some((id, q)) => match p_comps(b, q) {
            Some((cs, r)) => Some(((id, cs), r)),
            None => None,
        },
        None => None,
    }
}

pub open spec fn p_entity_items(b: Seq<u8>, pos: int, n: nat) -> Option<(Seq<EntityV>, int)>
    decreases n,
{
    if n == 0 {
        Some((Seq::empty(), pos))
    } else {
        match p_entity_items(b, pos, (n - 1) as nat) {
            Some((xs, q)) => match p_entity(b, q) {
                Some((x, r)) => Some((xs.push(x), r)),
                None => None,
            },
            None => None,
        }
    }
}

pub open spec fn p_u32_items(b: Seq<u8>, pos: int, n: nat) -> Option<(Seq<u32>, int)>
    decreases n,
{
    if n == 0 {
        Some((Seq::empty(), pos))
    } else {
        match p_u32_items(b, pos, (n - 1) as nat) {
            Some((xs, q)) => match p_u32(b, q) {
                Some((x, r)) => Some((xs.push(x), r)),
                None => None,
            },
            None => None,
        }
    }
}

pub open spec fn p_u64_items(b: Seq<u8>, pos: int, n: nat) -> Option<(Seq<u64>, int)>
    decreases n,
{
    if n == 0 {
        Some((Seq::empty(), pos))
    } else {
        match p_u64_items(b, pos, (n - 1) as nat) {
            Some((xs, q)) => match p_u64(b, q) {
                Some((x, r)) => Some((xs.push(x), r)),
                None => None,
            },
            None => None,
        }
    }
}

pub open spec fn p_update(b: Seq<u8>, pos: int) -> Option<(UpdateV, int)> {
    match p_u64(b, pos) {
        Some((id, q)) => match p_comps(b, q) {
            Some((cs, r)) => match p_u64(b, r) {
                Some((n, s)) => match p_u32_items(b, s, n as nat) {
                    Some((ks, t)) => Some(((id, cs, ks), t)),
                    None => None,
                },
                None => None,
            },
            None => None,
        },
        None => None,
    }
}

pub open spec fn p_update_items(b: Seq<u8>, pos: int, n: nat) -> Option<(Seq<UpdateV>, int)>
    decreases n,
{
    if n == 0 {
        Some((Seq::empty(), pos))
    } else {
        match p_update_items(b, pos, (n - 1) as nat) {
            Some((xs, q)) => match p_update(b, q) {
                Some((x, r)) => Some((xs.push(x), r)),
                None => None,
            },
            None => None,
        }
    }
}

/// The diff that `b` holds, read as `encode_diff_spec` lays it out, with no
/// byte left over; `None` where `b` holds none.
pub open spec fn parse_diff(b: Seq<u8>) -> Option<DiffV> {
    match p_u64(b, 0) {
        Some((tick, q)) => if q < b.len() && (b[q] == 0 || b[q] == 1) {
            match p_u64(b, q + 1) {
                Some((bt, q2)) => match p_u64(b, q2) {
                Some((ns, r)) => match p_entity_items(b, r, ns as nat) {
                    Some((es, r2)) => match p_u64(b, r2) {
                        Some((nu, s)) => match p_update_items(b, s, nu as nat) {
                            Some((us, s2)) => match p_u64(b, s2) {
                                Some((nd, t)) => match p_u64_items(b, t, nd as nat) {
                                    Some((ds, t2)) => if t2 == b.len() {
                                        Some((tick, b[q] == 1, bt, es, us, ds))
                                    } else {
                                        None
                                    },
                                    None => None,
                                },
                                None => None,
                            },
                            None => None,
                        },
                        None => None,
                    },
                    None => None,
                },
                None => None,
                },
                None => None,
            }
        } else {
            None
        },
        None => None,
    }
}

/// `e` stands in `b` at `pos`.
pub open spec fn at(b: Seq<u8>, pos: int, e: Seq<u8>) -> bool {
    0 <= pos && pos + e.len() <= b.len() && b.subrange(pos, pos + e.len()) == e
}

proof fn lemma_at_split(b: Seq<u8>, pos: int, x: Seq<u8>, y: Seq<u8>)
    requires
        at(b, pos, x + y),
    ensures
        at(b, pos, x),
        at(b, pos + x.len(), y),
{
    assert(b.subrange(pos, pos + x.len()) =~= (x + y).subrange(0, x.len() as int));
    assert(b.subrange(pos + x.len(), pos + x.len() + y.len()) =~= (x + y).subrange(
        x.len() as int,
        (x.len() + y.len()) as int,
    ));
    assert((x + y).subrange(0, x.len() as int) =~= x);
    assert((x + y).subrange(x.len() as int, (x.len() + y.len()) as int) =~= y);
}

proof fn lemma_p_u32(b: Seq<u8>, pos: int, v: u32)
    requires
        at(b, pos, le4(v)),
    ensures
        p_u32(b, pos) == Some((v, pos + 4)),
{
    lemma_le4_round_trip(v);
}

proof fn lemma_p_u64(b: Seq<u8>, pos: int, v: u64)
    requires
        at(b, pos, le8(v)),
    ensures
        p_u64(b, pos) == Some((v, pos + 8)),
{
    lemma_le8_round_trip(v);
}

/// Every length in `cs` fits the eight bytes that carry it.
pub open spec fn comps_fit(cs: Seq<ComponentValue>) -> bool {
    &&& cs.len() <= u64::MAX
    &&& forall|i: int| 0 <= i < cs.len() ==> (#[trigger] cs[i]).data@.len() <= u64::MAX
}

proof fn lemma_p_comp(b: Seq<u8>, pos: int, c: ComponentValue)
    requires
        at(b, pos, enc_comp(c)),
        c.data@.len() <= u64::MAX,
    ensures
        p_comp(b, pos) == Some((comp_v(c), pos + enc_comp(c).len())),
{
    let n = c.data@.len();
    lemma_le8_round_trip(n as u64);
    lemma_at_split(b, pos, le4(c.kind) + len8(n), c.data@);
    lemma_at_split(b, pos, le4(c.kind), len8(n));
    lemma_p_u32(b, pos, c.kind);
    lemma_p_u64(b, pos + 4, n as u64);
    assert((n as u64) as int == n);
}

proof fn lemma_p_comp_items(b: Seq<u8>, pos: int, cs: Seq<ComponentValue>)
    requires
        at(b, pos, enc_comp_items(cs)),
        comps_fit(cs),
    ensures
        p_comp_items(b, pos, cs.len()) == Some((comps_v(cs), pos + enc_comp_items(cs).len())),
    decreases cs.len(),
{
    if cs.len() > 0 {
        let p = cs.drop_last();
        lemma_at_split(b, pos, enc_comp_items(p), enc_comp(cs.last()));
        lemma_p_comp_items(b, pos, p);
        lemma_p_comp(b, pos + enc_comp_items(p).len(), cs.last());
        assert(comps_v(p).push(comp_v(cs.last())) =~= comps_v(cs));
    } else {
        assert(comps_v(cs) =~= Seq::<CompV>::empty());
    }
}

proof fn lemma_p_comps(b: Seq<u8>, pos: int, cs: Seq<ComponentValue>)
    requires
        at(b, pos, enc_comps(cs)),
        comps_fit(cs),
    ensures
        p_comps(b, pos) == Some((comps_v(cs), pos + enc_comps(cs).len())),
{
    lemma_le8_round_trip(cs.len() as u64);
    lemma_at_split(b, pos, len8(cs.len()), enc_comp_items(cs));
    lemma_p_u64(b, pos, cs.len() as u64);
    lemma_p_comp_items(b, pos + 8, cs);
}

proof fn lemma_p_entity_items(b: Seq<u8>, pos: int, es: Seq<EntityState>)
    requires
        at(b, pos, enc_entity_items(es)),
        forall|i: int| 0 <= i < es.len() ==> comps_fit(#[trigger] es[i].components@),
    ensures
        p_entity_items(b, pos, es.len()) == Some((
            es.map_values(|e: EntityState| entity_v(e)),
            pos + enc_entity_items(es).len(),
        )),
    decreases es.len(),
{
    if es.len() > 0 {
        let p = es.drop_last();
        let e = es.last();
        lemma_at_split(b, pos, enc_entity_items(p), enc_entity(e));
        assert forall|i: int| 0 <= i < p.len() implies comps_fit(#[trigger] p[i].components@) by {
            assert(p[i] == es[i]);
        }
        lemma_p_entity_items(b, pos, p);
        let q = pos + enc_entity_items(p).len();
        lemma_le8_round_trip(e.id);
        lemma_at_split(b, q, le8(e.id), enc_comps(e.components@));
        lemma_p_u64(b, q, e.id);
        assert(comps_fit(es[es.len() - 1].components@));
        lemma_p_comps(b, q + 8, e.components@);
        assert(p.map_values(|e: EntityState| entity_v(e)).push(entity_v(e)) =~= es.map_values(
            |e: EntityState| entity_v(e),
        ));
    } else {
        assert(es.map_values(|e: EntityState| entity_v(e)) =~= Seq::<EntityV>::empty());
    }
}

proof fn lemma_p_u32_items(b: Seq<u8>, pos: int, ks: Seq<u32>)
    requires
        at(b, pos, enc_u32_items(ks)),
    ensures
        p_u32_items(b, pos, ks.len()) == Some((ks, pos + enc_u32_items(ks).len())),
    decreases ks.len(),
{
    if ks.len() > 0 {
        let p = ks.drop_last();
        lemma_le4_round_trip(ks.last());
        lemma_at_split(b, pos, enc_u32_items(p), le4(ks.last()));
        lemma_p_u32_items(b, pos, p);
        lemma_p_u32(b, pos + enc_u32_items(p).len(), ks.last());
        assert(p.push(ks.last()) =~= ks);
    } else {
        assert(ks =~= Seq::<u32>::empty());
    }
}

proof fn lemma_p_u64_items(b: Seq<u8>, pos: int, ids: Seq<u64>)
    requires
        at(b, pos, enc_u64_items(ids)),
    ensures
        p_u64_items(b, pos, ids.len()) == Some((ids, pos + enc_u64_items(ids).len())),
    decreases ids.len(),
{
    if ids.len() > 0 {
        let p = ids.drop_last();
        lemma_le8_round_trip(ids.last());
        lemma_at_split(b, pos, enc_u64_items(p), le8(ids.last()));
        lemma_p_u64_items(b, pos, p);
        lemma_p_u64(b, pos + enc_u64_items(p).len(), ids.last());
        assert(p.push(ids.last()) =~= ids);
    } else {
        assert(ids =~= Seq::<u64>::empty());
    }
}

/// Every length in `u` fits the eight bytes that carry it.
pub open spec fn update_fits(u: EntityUpdate) -> bool {
    comps_fit(u.changed@) && u.removed@.len() <= u64::MAX
}

proof fn lemma_p_update_items(b: Seq<u8>, pos: int, us: Seq<EntityUpdate>)
    requires
        at(b, pos, enc_update_items(us)),
        forall|i: int| 0 <= i < us.len() ==> update_fits(#[trigger] us[i]),
    ensures
        p_update_items(b, pos, us.len()) == Some((
            us.map_values(|u: EntityUpdate| update_v(u)),
            pos + enc_update_items(us).len(),
        )),
    decreases us.len(),
{
    if us.len() > 0 {
        let p = us.drop_last();
        let u = us.last();
        lemma_at_split(b, pos, enc_update_items(p), enc_update(u));
        assert forall|i: int| 0 <= i < p.len() implies update_fits(#[trigger] p[i]) by {
            assert(p[i] == us[i]);
        }
        lemma_p_update_items(b, pos, p);
        assert(update_fits(us[us.len() - 1]));
        let q = pos + enc_update_items(p).len();
        let a = le8(u.id);
        let c = enc_comps(u.changed@);
        let n = len8(u.removed@.len());
        let k = enc_u32_items(u.removed@);
        assert(enc_update(u) == a + c + n + k);
        lemma_at_split(b, q, a + c + n, k);
        lemma_at_split(b, q, a + c, n);
        lemma_at_split(b, q, a, c);
        lemma_le8_round_trip(u.id);
        lemma_le8_round_trip(u.removed@.len() as u64);
        lemma_p_u64(b, q, u.id);
        lemma_p_comps(b, q + 8, u.changed@);
        lemma_p_u64(b, q + 8 + c.len(), u.removed@.len() as u64);
        lemma_p_u32_items(b, q + 8 + c.len() + 8, u.removed@);
        assert(p.map_values(|u: EntityUpdate| update_v(u)).push(update_v(u)) =~= us.map_values(
            |u: EntityUpdate| update_v(u),
        ));
    } else {
        assert(us.map_values(|u: EntityUpdate| update_v(u)) =~= Seq::<UpdateV>::empty());
    }
}

/// Every length in `d` fits the eight bytes that carry it.
pub open spec fn diff_fits(d: WorldDiff) -> bool {
    &&& d.spawns@.len() <= u64::MAX
    &&& d.updates@.len() <= u64::MAX
    &&& d.despawns@.len() <= u64::MAX
    &&& forall|i: int| 0 <= i < d.spawns@.len() ==> comps_fit(#[trigger] d.spawns@[i].components@)
    &&& forall|i: int| 0 <= i < d.updates@.len() ==> update_fits(#[trigger] d.updates@[i])
}

/// Reading the bytes of a diff gives back that diff.
pub proof fn lemma_diff_round_trip(d: WorldDiff)
    requires
        diff_fits(d),
    ensures
        parse_diff(encode_diff_spec(d)) == Some(diff_v(d)),
{
    let b = encode_diff_spec(d);
    let t = le8(d.tick);
    let f = seq![if d.full { 1u8 } else { 0u8 }];
    let bt = le8(d.baseline_tick);
    let ns = len8(d.spawns@.len());
    let es = enc_entity_items(d.spawns@);
    let nu = len8(d.updates@.len());
    let us = enc_update_items(d.updates@);
    let nd = len8(d.despawns@.len());
    let ds = enc_u64_items(d.despawns@);
    assert(b == t + f + bt + ns + es + nu + us + nd + ds);
    assert(at(b, 0, b)) by {
        assert(b.subrange(0, b.len() as int) =~= b);
    }
    lemma_at_split(b, 0, t + f + bt + ns + es + nu + us + nd, ds);
    lemma_at_split(b, 0, t + f + bt + ns + es + nu + us, nd);
    lemma_at_split(b, 0, t + f + bt + ns + es + nu, us);
    lemma_at_split(b, 0, t + f + bt + ns + es, nu);
    lemma_at_split(b, 0, t + f + bt + ns, es);
    lemma_at_split(b, 0, t + f + bt, ns);
    lemma_at_split(b, 0, t + f, bt);
    lemma_at_split(b, 0, t, f);
    lemma_le8_round_trip(d.tick);
    lemma_le8_round_trip(d.baseline_tick);
    lemma_le8_round_trip(d.spawns@.len() as u64);
    lemma_le8_round_trip(d.updates@.len() as u64);
    lemma_le8_round_trip(d.despawns@.len() as u64);
    lemma_p_u64(b, 0, d.tick);
    assert(b[8] == f[0]) by {
        assert(b.subrange(8, 9)[0] == b[8]);
    }
    lemma_p_u64(b, 9, d.baseline_tick);
    let r = 17;
    lemma_p_u64(b, r, d.spawns@.len() as u64);
    lemma_p_entity_items(b, r + 8, d.spawns@);
    let s = r + 8 + es.len();
    lemma_p_u64(b, s, d.updates@.len() as u64);
    lemma_p_update_items(b, s + 8, d.updates@);
    let u = s + 8 + us.len();
    lemma_p_u64(b, u, d.despawns@.len() as u64);
    lemma_p_u64_items(b, u + 8, d.despawns@);
}

proof fn lemma_comp_items_none(b: Seq<u8>, pos: int, i: nat, n: nat)
    requires
        i <= n,
        p_comp_items(b, pos, i) is None,
    ensures
        p_comp_items(b, pos, n) is None,
    decreases n - i,
{
    if i < n {
        lemma_comp_items_none(b, pos, i, (n - 1) as nat);
    }
}

proof fn lemma_entity_items_none(b: Seq<u8>, pos: int, i: nat, n: nat)
    requires
        i <= n,
        p_entity_items(b, pos, i) is None,
    ensures
        p_entity_items(b, pos, n) is None,
    decreases n - i,
{
    if i < n {
        lemma_entity_items_none(b, pos, i, (n - 1) as nat);
    }
}

proof fn lemma_u32_items_none(b: Seq<u8>, pos: int, i: nat, n: nat)
    requires
        i <= n,
        p_u32_items(b, pos, i) is None,
    ensures
        p_u32_items(b, pos, n) is None,
    decreases n - i,
{
    if i < n {
        lemma_u32_items_none(b, pos, i, (n - 1) as nat);
    }
}

proof fn lemma_u64_items_none(b: Seq<u8>, pos: int, i: nat, n: nat)
    requires
        i <= n,
        p_u64_items(b, pos, i) is None,
    ensures
        p_u64_items(b, pos, n) is None,
    decreases n - i,
{
    if i < n {
        lemma_u64_items_none(b, pos, i, (n - 1) as nat);
    }
}

proof fn lemma_update_items_none(b: Seq<u8>, pos: int, i: nat, n: nat)
    requires
        i <= n,
        p_update_items(b, pos, i) is None,
    ensures
        p_update_items(b, pos, n) is None,
    decreases n - i,
{
    if i < n {
        lemma_update_items_none(b, pos, i, (n - 1) as nat);
    }
}

fn read_comp(b: &Vec<u8>, pos: usize) -> (r: Option<(ComponentValue, usize)>)
    ensures
        match r {
            Some((c, q)) => p_comp(b@, pos as int) == Some((comp_v(c), q as int)),
            None => p_comp(b@, pos as int) is None,
        },
{
    let blen = b.len();
    let kind = match read_u32(b, pos) {
        Some(k) => k,
        None => return None,
    };
    let q = pos + 4;
    let n = match read_u64(b, q) {
        Some(n) => n,
        None => return None,
    };
    let start = q + 8;
    if n > (blen - start) as u64 {
        return None;
    }
    let end = start + n as usize;
    let mut data: Vec<u8> = Vec::new();
    let mut i: usize = start;
    while i < end
        invariant
            start <= i <= end,
            end <= b@.len(),
            data@ == b@.subrange(start as int, i as int),
        decreases end - i,
    {
        data.push(b[i]);
        i = i + 1;
        assert(data@ =~= b@.subrange(start as int, i as int));
    }
    Some((ComponentValue { kind, data }, end))
}

fn read_comps(b: &Vec<u8>, pos: usize) -> (r: Option<(Vec<ComponentValue>, usize)>)
    ensures
        match r {
            Some((cs, q)) => p_comps(b@, pos as int) == Some((comps_v(cs@), q as int)),
            None => p_comps(b@, pos as int) is None,
        },
{
    let blen = b.len();
    let n = match read_u64(b, pos) {
        Some(n) => n,
        None => return None,
    };
    let q0 = pos + 8;
    let mut out: Vec<ComponentValue> = Vec::new();
    let mut p: usize = q0;
    let mut i: u64 = 0;
    assert(comps_v(out@) =~= Seq::<CompV>::empty());
    while i < n
        invariant
            i <= n,
            blen == b@.len(),
            p_u64(b@, pos as int) == Some((n, q0 as int)),
            p_comp_items(b@, q0 as int, i as nat) == Some((comps_v(out@), p as int)),
        decreases n - i,
    {
        match read_comp(b, p) {
            Some((c, q)) => {
                out.push(c);
                p = q;
                assert(comps_v(out@) =~= comps_v(out@.drop_last()).push(comp_v(c)));
                assert(out@.drop_last() =~= out@.subrange(0, out@.len() - 1));
            },
            None => {
                proof {
                    lemma_comp_items_none(b@, q0 as int, (i + 1) as nat, n as nat);
                }
                return None;
            },
        }
        i = i + 1;
    }
    Some((out, p))
}

fn read_u32_list(b: &Vec<u8>, pos: usize, n: u64) -> (r: Option<(Vec<u32>, usize)>)
    ensures
        match r {
            Some((ks, q)) => p_u32_items(b@, pos as int, n as nat) == Some((ks@, q as int)),
            None => p_u32_items(b@, pos as int, n as nat) is None,
        },
{
    let blen = b.len();
    let mut out: Vec<u32> = Vec::new();
    let mut p: usize = pos;
    let mut i: u64 = 0;
    while i < n
        invariant
            i <= n,
            blen == b@.len(),
            p_u32_items(b@, pos as int, i as nat) == Some((out@, p as int)),
        decreases n - i,
    {
        match read_u32(b, p) {
            Some(k) => {
                out.push(k);
                p = p + 4;
            },
            None => {
                proof {
                    lemma_u32_items_none(b@, pos as int, (i + 1) as nat, n as nat);
                }
                return None;
            },
        }
        i = i + 1;
    }
    Some((out, p))
}

fn read_u64_list(b: &Vec<u8>, pos: usize, n: u64) -> (r: Option<(Vec<u64>, usize)>)
    ensures
        match r {
            Some((ids, q)) => p_u64_items(b@, pos as int, n as nat) == Some((ids@, q as int)),
            None => p_u64_items(b@, pos as int, n as nat) is None,
        },
{
    let blen = b.len();
    let mut out: Vec<u64> = Vec::new();
    let mut p: usize = pos;
    let mut i: u64 = 0;
    while i < n
        invariant
            i <= n,
            blen == b@.len(),
            p_u64_items(b@, pos as int, i as nat) == Some((out@, p as int)),
        decreases n - i,
    {
        match read_u64(b, p) {
            Some(v) => {
                out.push(v);
                p = p + 8;
            },
            None => {
                proof {
                    lemma_u64_items_none(b@, pos as int, (i + 1) as nat, n as nat);
                }
                return None;
            },
        }
        i = i + 1;
    }
    Some((out, p))
}

fn read_entities(b: &Vec<u8>, pos: usize, n: u64) -> (r: Option<(Vec<EntityState>, usize)>)
    ensures
        match r {
            Some((es, q)) => p_entity_items(b@, pos as int, n as nat) == Some((
                es@.map_values(|e: EntityState| entity_v(e)),
                q as int,
            )),
            None => p_entity_items(b@, pos as int, n as nat) is None,
        },
{
    let blen = b.len();
    let mut out: Vec<EntityState> = Vec::new();
    let mut p: usize = pos;
    let mut i: u64 = 0;
    assert(out@.map_values(|e: EntityState| entity_v(e)) =~= Seq::<EntityV>::empty());
    while i < n
        invariant
            i <= n,
            blen == b@.len(),
            p_entity_items(b@, pos as int, i as nat) == Some((
                out@.map_values(|e: EntityState| entity_v(e)),
                p as int,
            )),
        decreases n - i,
    {
        let id = match read_u64(b, p) {
            Some(id) => id,
            None => {
                proof {
                    lemma_entity_items_none(b@, pos as int, (i + 1) as nat, n as nat);
                }
                return None;
            },
        };
        match read_comps(b, p + 8) {
            Some((cs, q)) => {
                let e = EntityState { id, components: cs };
                let ghost before = out@;
                out.push(e);
                p = q;
                assert(out@.map_values(|e: EntityState| entity_v(e)) =~= before.map_values(
                    |e: EntityState| entity_v(e),
                ).push(entity_v(e)));
            },
            None => {
                proof {
                    lemma_entity_items_none(b@, pos as int, (i + 1) as nat, n as nat);
                }
                return None;
            },
        }
        i = i + 1;
    }
    Some((out, p))
}

fn read_updates(b: &Vec<u8>, pos: usize, n: u64) -> (r: Option<(Vec<EntityUpdate>, usize)>)
    ensures
        match r {
            Some((us, q)) => p_update_items(b@, pos as int, n as nat) == Some((
                us@.map_values(|u: EntityUpdate| update_v(u)),
                q as int,
            )),
            None => p_update_items(b@, pos as int, n as nat) is None,
        },
{
    let blen = b.len();
    let mut out: Vec<EntityUpdate> = Vec::new();
    let mut p: usize = pos;
    let mut i: u64 = 0;
    assert(out@.map_values(|u: EntityUpdate| update_v(u)) =~= Seq::<UpdateV>::empty());
    while i < n
        invariant
            i <= n,
            blen == b@.len(),
            p_update_items(b@, pos as int, i as nat) == Some((
                out@.map_values(|u: EntityUpdate| update_v(u)),
                p as int,
            )),
        decreases n - i,
    {
        let id = match read_u64(b, p) {
            Some(id) => id,
            None => {
                proof {
                    lemma_update_items_none(b@, pos as int, (i + 1) as nat, n as nat);
                }
                return None;
            },
        };
        let (changed, q) = match read_comps(b, p + 8) {
            Some(x) => x,
            None => {
                proof {
                    lemma_update_items_none(b@, pos as int, (i + 1) as nat, n as nat);
                }
                return None;
            },
        };
        let nk = match read_u64(b, q) {
            Some(nk) => nk,
            None => {
                proof {
                    lemma_update_items_none(b@, pos as int, (i + 1) as nat, n as nat);
                }
                return None;
            },
        };
        match read_u32_list(b, q + 8, nk) {
            Some((removed, t)) => {
                let u = EntityUpdate { id, changed, removed };
                let ghost before = out@;
                out.push(u);
                p = t;
                assert(out@.map_values(|u: EntityUpdate| update_v(u)) =~= before.map_values(
                    |u: EntityUpdate| update_v(u),
                ).push(update_v(u)));
            },
            None => {
                proof {
                    lemma_update_items_none(b@, pos as int, (i + 1) as nat, n as nat);
                }
                return None;
            },
        }
        i = i + 1;
    }
    Some((out, p))
}

/// The diff that `b` holds; `None` exactly where `parse_diff` finds none.
pub fn decode_diff(b: &Vec<u8>) -> (r: Option<WorldDiff>)
    ensures
        match r {
            Some(d) => parse_diff(b@) == Some(diff_v(d)),
            None => parse_diff(b@) is None,
        },
{
    let blen = b.len();
    let tick = match read_u64(b, 0) {
        Some(t) => t,
        None => return None,
    };
    if blen <= 8 || (b[8] != 0 && b[8] != 1) {
        return None;
    }
    let full = b[8] == 1;
    let baseline_tick = match read_u64(b, 9) {
        Some(t) => t,
        None => return None,
    };
    let ns = match read_u64(b, 17) {
        Some(n) => n,
        None => return None,
    };
    let (spawns, r2) = match read_entities(b, 25, ns) {
        Some(x) => x,
        None => return None,
    };
    let nu = match read_u64(b, r2) {
        Some(n) => n,
        None => return None,
    };
    let (updates, s2) = match read_updates(b, r2 + 8, nu) {
        Some(x) => x,
        None => return None,
    };
    let nd = match read_u64(b, s2) {
        Some(n) => n,
        None => return None,
    };
    let (despawns, t2) = match read_u64_list(b, s2 + 8, nd) {
        Some(x) => x,
        None => return None,
    };
    if t2 != blen {
        return None;
    }
    let d = WorldDiff { tick, full, baseline_tick, spawns, updates, despawns };
    Some(d)
}

proof fn lemma_upsert_view(m: ComponentsModel, a: Seq<ComponentValue>, b: Seq<ComponentValue>)
    requires
        comps_v(a) == comps_v(b),
    ensures
        upsert_all(m, a) == upsert_all(m, b),
    decreases a.len(),
{
    assert(a.len() == comps_v(a).len() && b.len() == comps_v(b).len());
    if a.len() > 0 {
        assert(comps_v(a.drop_last()) =~= comps_v(a).drop_last());
        assert(comps_v(b.drop_last()) =~= comps_v(b).drop_last());
        lemma_upsert_view(m, a.drop_last(), b.drop_last());
        assert(comps_v(a)[a.len() - 1] == comps_v(b)[b.len() - 1]);
    }
}

proof fn lemma_spawn_view(w: WorldModel, a: Seq<EntityState>, b: Seq<EntityState>)
    requires
        a.map_values(|e: EntityState| entity_v(e)) == b.map_values(|e: EntityState| entity_v(e)),
    ensures
        spawn_all(w, a) == spawn_all(w, b),
    decreases a.len(),
{
    let fa = a.map_values(|e: EntityState| entity_v(e));
    let fb = b.map_values(|e: EntityState| entity_v(e));
    assert(a.len() == fa.len() && b.len() == fb.len());
    if a.len() > 0 {
        assert(a.drop_last().map_values(|e: EntityState| entity_v(e)) =~= fa.drop_last());
        assert(b.drop_last().map_values(|e: EntityState| entity_v(e)) =~= fb.drop_last());
        lemma_spawn_view(w, a.drop_last(), b.drop_last());
        assert(fa[a.len() - 1] == fb[b.len() - 1]);
        lemma_upsert_view(Map::empty(), a.last().components@, b.last().components@);
    }
}

proof fn lemma_update_view(w: WorldModel, a: Seq<EntityUpdate>, b: Seq<EntityUpdate>)
    requires
        a.map_values(|u: EntityUpdate| update_v(u)) == b.map_values(|u: EntityUpdate| update_v(u)),
    ensures
        update_all(w, a) == update_all(w, b),
    decreases a.len(),
{
    let fa = a.map_values(|u: EntityUpdate| update_v(u));
    let fb = b.map_values(|u: EntityUpdate| update_v(u));
    assert(a.len() == fa.len() && b.len() == fb.len());
    if a.len() > 0 {
        assert(a.drop_last().map_values(|u: EntityUpdate| update_v(u)) =~= fa.drop_last());
        assert(b.drop_last().map_values(|u: EntityUpdate| update_v(u)) =~= fb.drop_last());
        lemma_update_view(w, a.drop_last(), b.drop_last());
        assert(fa[a.len() - 1] == fb[b.len() - 1]);
        let (x, y) = (a.last(), b.last());
        match update_all(w, a.drop_last()) {
            Some(w2) => {
                if w2.contains_key(x.id) {
                    lemma_upsert_view(remove_all_of(w2[x.id], x), x.changed@, y.changed@);
                    assert(update_entity(w2[x.id], x) == update_entity(w2[x.id], y));
                }
            },
            None => {},
        }
    }
}

spec fn remove_all_of(m: ComponentsModel, u: EntityUpdate) -> ComponentsModel {
    crate::world::remove_all(m, u.removed@)
}

/// What a diff does depends on its content alone: two diffs with the same
/// content apply alike to every world.
pub proof fn lemma_apply_depends_on_content(w: WorldModel, a: WorldDiff, b: WorldDiff)
    requires
        diff_v(a) == diff_v(b),
    ensures
        apply_model(w, a) == apply_model(w, b),
{
    let base = if a.full {
        Map::empty()
    } else {
        w
    };
    lemma_spawn_view(base, a.spawns@, b.spawns@);
    lemma_update_view(spawn_all(base, a.spawns@), a.updates@, b.updates@);
}

} // verus!
