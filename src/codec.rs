//! Byte layout of what goes on the wire: integers fixed-width and
//! little-endian, as bincode writes them with its default options.
use vstd::prelude::*;
use vstd::slice::slice_subrange;
use crate::differ::{EntityUpdate, WorldDiff};
use crate::events::SendMode;
use crate::world::{ComponentValue, EntityState};

verus! {

/// The four bytes of `v`, least significant first.
pub open spec fn le4(v: u32) -> Seq<u8> {
    seq![
        (v & 0xff) as u8,
        ((v >> 8u32) & 0xff) as u8,
        ((v >> 16u32) & 0xff) as u8,
        ((v >> 24u32) & 0xff) as u8,
    ]
}

/// The eight bytes of `v`, least significant first.
pub open spec fn le8(v: u64) -> Seq<u8> {
    seq![
        (v & 0xff) as u8,
        ((v >> 8u64) & 0xff) as u8,
        ((v >> 16u64) & 0xff) as u8,
        ((v >> 24u64) & 0xff) as u8,
        ((v >> 32u64) & 0xff) as u8,
        ((v >> 40u64) & 0xff) as u8,
        ((v >> 48u64) & 0xff) as u8,
        ((v >> 56u64) & 0xff) as u8,
    ]
}

/// The integer whose four little-endian bytes begin `s`.
pub open spec fn from_le4(s: Seq<u8>) -> u32 {
    (s[0] as u32) | ((s[1] as u32) << 8u32) | ((s[2] as u32) << 16u32) | ((s[3] as u32) << 24u32)
}

/// The integer whose eight little-endian bytes begin `s`.
pub open spec fn from_le8(s: Seq<u8>) -> u64 {
    (s[0] as u64) | ((s[1] as u64) << 8u64) | ((s[2] as u64) << 16u64) | ((s[3] as u64) << 24u64)
        | ((s[4] as u64) << 32u64) | ((s[5] as u64) << 40u64) | ((s[6] as u64) << 48u64) | ((
    s[7] as u64) << 56u64)
}

pub proof fn lemma_le4_round_trip(v: u32)
    ensures
        le4(v).len() == 4,
        from_le4(le4(v)) == v,
{
    assert(((v & 0xff) as u8) as u32 | ((((v >> 8u32) & 0xff) as u8) as u32) << 8u32 | ((((v
        >> 16u32) & 0xff) as u8) as u32) << 16u32 | ((((v >> 24u32) & 0xff) as u8) as u32)
        << 24u32 == v) by (bit_vector);
}

pub proof fn lemma_le8_round_trip(v: u64)
    ensures
        le8(v).len() == 8,
        from_le8(le8(v)) == v,
{
    assert(((v & 0xff) as u8) as u64 | ((((v >> 8u64) & 0xff) as u8) as u64) << 8u64 | ((((v
        >> 16u64) & 0xff) as u8) as u64) << 16u64 | ((((v >> 24u64) & 0xff) as u8) as u64)
        << 24u64 | ((((v >> 32u64) & 0xff) as u8) as u64) << 32u64 | ((((v >> 40u64) & 0xff)
        as u8) as u64) << 40u64 | ((((v >> 48u64) & 0xff) as u8) as u64) << 48u64 | ((((v
        >> 56u64) & 0xff) as u8) as u64) << 56u64 == v) by (bit_vector);
}

pub proof fn lemma_from_le4_round_trip(s: Seq<u8>)
    requires
        s.len() == 4,
    ensures
        le4(from_le4(s)) == s,
{
    let (a0, a1, a2, a3) = (s[0], s[1], s[2], s[3]);
    let v = from_le4(s);
    assert((v & 0xff) as u8 == a0 && ((v >> 8u32) & 0xff) as u8 == a1 && ((v >> 16u32) & 0xff) as u8
        == a2 && ((v >> 24u32) & 0xff) as u8 == a3) by (bit_vector)
        requires
            v == (a0 as u32) | ((a1 as u32) << 8u32) | ((a2 as u32) << 16u32) | ((a3 as u32)
                << 24u32),
    ;
    assert(le4(v) =~= s);
}

pub proof fn lemma_from_le8_round_trip(s: Seq<u8>)
    requires
        s.len() == 8,
    ensures
        le8(from_le8(s)) == s,
{
    let (a0, a1, a2, a3, a4, a5, a6, a7) = (s[0], s[1], s[2], s[3], s[4], s[5], s[6], s[7]);
    let v = from_le8(s);
    assert((v & 0xff) as u8 == a0 && ((v >> 8u64) & 0xff) as u8 == a1 && ((v >> 16u64) & 0xff) as u8
        == a2 && ((v >> 24u64) & 0xff) as u8 == a3 && ((v >> 32u64) & 0xff) as u8 == a4 && ((v
        >> 40u64) & 0xff) as u8 == a5 && ((v >> 48u64) & 0xff) as u8 == a6 && ((v >> 56u64)
        & 0xff) as u8 == a7) by (bit_vector)
        requires
            v == (a0 as u64) | ((a1 as u64) << 8u64) | ((a2 as u64) << 16u64) | ((a3 as u64)
                << 24u64) | ((a4 as u64) << 32u64) | ((a5 as u64) << 40u64) | ((a6 as u64)
                << 48u64) | ((a7 as u64) << 56u64),
    ;
    assert(le8(v) =~= s);
}

/// Relies on bincode::serialize: with its default options a u32 is written
/// as its four little-endian bytes, and writing into a Vec does not fail.
#[verifier::external_body]
fn serialize_u32(v: u32) -> (r: Vec<u8>)
    ensures
        r@ == le4(v),
{
    bincode::serialize(&v).unwrap_or_default()
}

/// Relies on bincode::serialize: with its default options a u64 is written
/// as its eight little-endian bytes, and writing into a Vec does not fail.
#[verifier::external_body]
fn serialize_u64(v: u64) -> (r: Vec<u8>)
    ensures
        r@ == le8(v),
{
    bincode::serialize(&v).unwrap_or_default()
}

/// Relies on bincode::deserialize: with its default options a u32 is read
/// from the first four bytes, little-endian; fewer bytes fail and later
/// bytes are left alone.
#[verifier::external_body]
fn deserialize_u32(b: &[u8]) -> (r: Option<u32>)
    ensures
        b@.len() >= 4 ==> r == Some(from_le4(b@)),
        b@.len() < 4 ==> r is None,
{
    bincode::deserialize::<u32>(b).ok()
}

/// Relies on bincode::deserialize: with its default options a u64 is read
/// from the first eight bytes, little-endian; fewer bytes fail and later
/// bytes are left alone.
#[verifier::external_body]
fn deserialize_u64(b: &[u8]) -> (r: Option<u64>)
    ensures
        b@.len() >= 8 ==> r == Some(from_le8(b@)),
        b@.len() < 8 ==> r is None,
{
    bincode::deserialize::<u64>(b).ok()
}

/// Appends `src` to `out`.
pub fn append(out: &mut Vec<u8>, src: &Vec<u8>)
    ensures
        final(out)@ == old(out)@ + src@,
{
    let mut i: usize = 0;
    while i < src.len()
        invariant
            i <= src@.len(),
            out@ == old(out)@ + src@.subrange(0, i as int),
        decreases src@.len() - i,
    {
        out.push(src[i]);
        i = i + 1;
        assert(out@ =~= old(out)@ + src@.subrange(0, i as int));
    }
    assert(src@.subrange(0, src@.len() as int) =~= src@);
}

/// Appends the four bytes of `v`.
pub fn write_u32(out: &mut Vec<u8>, v: u32)
    ensures
        final(out)@ == old(out)@ + le4(v),
{
    let bytes = serialize_u32(v);
    append(out, &bytes);
}

/// Appends the eight bytes of `v`.
pub fn write_u64(out: &mut Vec<u8>, v: u64)
    ensures
        final(out)@ == old(out)@ + le8(v),
{
    let bytes = serialize_u64(v);
    append(out, &bytes);
}

/// The u32 at `pos`, if four bytes are there.
pub fn read_u32(b: &Vec<u8>, pos: usize) -> (r: Option<u32>)
    ensures
        pos + 4 <= b@.len() ==> r == Some(from_le4(b@.subrange(pos as int, pos + 4))),
        pos + 4 > b@.len() ==> r is None,
{
    if pos > b.len() {
        return None;
    }
    let rest = slice_subrange(b.as_slice(), pos, b.len());
    let r = deserialize_u32(rest);
    proof {
        if pos + 4 <= b@.len() {
            let s = b@.subrange(pos as int, pos + 4);
            assert(s[0] == rest@[0] && s[1] == rest@[1] && s[2] == rest@[2] && s[3] == rest@[3]);
        }
    }
    r
}

/// The u64 at `pos`, if eight bytes are there.
pub fn read_u64(b: &Vec<u8>, pos: usize) -> (r: Option<u64>)
    ensures
        pos + 8 <= b@.len() ==> r == Some(from_le8(b@.subrange(pos as int, pos + 8))),
        pos + 8 > b@.len() ==> r is None,
{
    if pos > b.len() {
        return None;
    }
    let rest = slice_subrange(b.as_slice(), pos, b.len());
    let r = deserialize_u64(rest);
    proof {
        if pos + 8 <= b@.len() {
            let s = b@.subrange(pos as int, pos + 8);
            assert(s[0] == rest@[0] && s[1] == rest@[1] && s[2] == rest@[2] && s[3] == rest@[3]);
            assert(s[4] == rest@[4] && s[5] == rest@[5] && s[6] == rest@[6] && s[7] == rest@[7]);
        }
    }
    r
}

/// The bytes of a server event envelope: the mode's tag (broadcast 0,
/// broadcast-except 1, direct 2) as a u32, the client id where the mode has
/// one, then the encoded payload.
pub open spec fn envelope_spec(mode: SendMode, payload: Seq<u8>) -> Seq<u8> {
    match mode {
        SendMode::Broadcast => le4(0) + payload,
        SendMode::BroadcastExcept(c) => le4(1) + le8(c) + payload,
        SendMode::Direct(c) => le4(2) + le8(c) + payload,
    }
}

/// Frames `payload` with `mode`.
pub fn encode_envelope(mode: SendMode, payload: &Vec<u8>) -> (r: Vec<u8>)
    ensures
        r@ == envelope_spec(mode, payload@),
{
    let mut out: Vec<u8> = Vec::new();
    match mode {
        SendMode::Broadcast => {
            write_u32(&mut out, 0);
        },
        SendMode::BroadcastExcept(c) => {
            write_u32(&mut out, 1);
            write_u64(&mut out, c);
        },
        SendMode::Direct(c) => {
            write_u32(&mut out, 2);
            write_u64(&mut out, c);
        },
    }
    append(&mut out, payload);
    assert(out@ =~= envelope_spec(mode, payload@));
    out
}

/// The mode and payload that `b` frames; `None` exactly where `b` is no
/// envelope.
pub fn decode_envelope(b: &Vec<u8>) -> (r: Option<(SendMode, Vec<u8>)>)
    ensures
        r matches Some((m, p)) ==> envelope_spec(m, p@) == b@,
        r is None ==> forall|m: SendMode, p: Seq<u8>| envelope_spec(m, p) != b@,
{
    proof {
        lemma_le4_round_trip(0);
        lemma_le4_round_trip(1);
        lemma_le4_round_trip(2);
    }
    let tag = match read_u32(b, 0) {
        Some(t) => t,
        None => {
            assert forall|m: SendMode, p: Seq<u8>| envelope_spec(m, p) != b@ by {
                if envelope_spec(m, p) == b@ {
                    assert(b@.len() >= 4);
                }
            }
            return None;
        },
    };
    let (mode, start) = if tag == 0 {
        (SendMode::Broadcast, 4usize)
    } else if tag == 1 || tag == 2 {
        let c = match read_u64(b, 4) {
            Some(c) => c,
            None => {
                assert forall|m: SendMode, p: Seq<u8>| envelope_spec(m, p) != b@ by {
                    if envelope_spec(m, p) == b@ {
                        match m {
                            SendMode::Broadcast => {
                                assert(b@.subrange(0, 4) =~= le4(0));
                            },
                            _ => {
                                assert(b@.len() >= 12);
                            },
                        }
                    }
                }
                return None;
            },
        };
        proof {
            lemma_le8_round_trip(c);
        }
        if tag == 1 {
            (SendMode::BroadcastExcept(c), 12usize)
        } else {
            (SendMode::Direct(c), 12usize)
        }
    } else {
        assert forall|m: SendMode, p: Seq<u8>| envelope_spec(m, p) != b@ by {
            if envelope_spec(m, p) == b@ {
                match m {
                    SendMode::Broadcast => {
                        assert(b@.subrange(0, 4) =~= le4(0));
                    },
                    SendMode::BroadcastExcept(c) => {
                        assert(b@.subrange(0, 4) =~= le4(1));
                    },
                    SendMode::Direct(c) => {
                        assert(b@.subrange(0, 4) =~= le4(2));
                    },
                }
            }
        }
        return None;
    };
    let mut payload: Vec<u8> = Vec::new();
    let mut i: usize = start;
    while i < b.len()
        invariant
            start <= i <= b@.len(),
            payload@ == b@.subrange(start as int, i as int),
        decreases b@.len() - i,
    {
        payload.push(b[i]);
        i = i + 1;
        assert(payload@ =~= b@.subrange(start as int, i as int));
    }
    proof {
        lemma_from_le4_round_trip(b@.subrange(0, 4));
        if tag != 0 {
            lemma_from_le8_round_trip(b@.subrange(4, 12));
            assert(b@ =~= b@.subrange(0, 4) + b@.subrange(4, 12) + b@.subrange(12, b@.len() as int));
        } else {
            assert(b@ =~= b@.subrange(0, 4) + b@.subrange(4, b@.len() as int));
        }
        assert(b@ =~= envelope_spec(mode, payload@));
    }
    Some((mode, payload))
}

/// A length as written on the wire.
pub open spec fn len8(n: nat) -> Seq<u8> {
    le8(n as u64)
}

pub open spec fn enc_comp(c: ComponentValue) -> Seq<u8> {
    le4(c.kind) + len8(c.data@.len()) + c.data@
}

pub open spec fn enc_comp_items(cs: Seq<ComponentValue>) -> Seq<u8>
    decreases cs.len(),
{
    if cs.len() == 0 {
        Seq::empty()
    } else {
        enc_comp_items(cs.drop_last()) + enc_comp(cs.last())
    }
}

/// A list of components: its length, then kind, length and bytes of each.
pub open spec fn enc_comps(cs: Seq<ComponentValue>) -> Seq<u8> {
    len8(cs.len()) + enc_comp_items(cs)
}

pub open spec fn enc_entity(e: EntityState) -> Seq<u8> {
    le8(e.id) + enc_comps(e.components@)
}

pub open spec fn enc_entity_items(es: Seq<EntityState>) -> Seq<u8>
    decreases es.len(),
{
    if es.len() == 0 {
        Seq::empty()
    } else {
        enc_entity_items(es.drop_last()) + enc_entity(es.last())
    }
}

pub open spec fn enc_u32_items(ks: Seq<u32>) -> Seq<u8>
    decreases ks.len(),
{
    if ks.len() == 0 {
        Seq::empty()
    } else {
        enc_u32_items(ks.drop_last()) + le4(ks.last())
    }
}

pub open spec fn enc_u64_items(ids: Seq<u64>) -> Seq<u8>
    decreases ids.len(),
{
    if ids.len() == 0 {
        Seq::empty()
    } else {
        enc_u64_items(ids.drop_last()) + le8(ids.last())
    }
}

pub open spec fn enc_update(u: EntityUpdate) -> Seq<u8> {
    le8(u.id) + enc_comps(u.changed@) + len8(u.removed@.len()) + enc_u32_items(u.removed@)
}

pub open spec fn enc_update_items(us: Seq<EntityUpdate>) -> Seq<u8>
    decreases us.len(),
{
    if us.len() == 0 {
        Seq::empty()
    } else {
        enc_update_items(us.drop_last()) + enc_update(us.last())
    }
}

/// The bytes of a diff: the tick, the full flag as one byte, the baseline
/// tick, then the spawns, the updates and the despawns, each list preceded
/// by its length.
pub open spec fn encode_diff_spec(d: WorldDiff) -> Seq<u8> {
    le8(d.tick) + seq![if d.full { 1u8 } else { 0u8 }] + le8(d.baseline_tick) + len8(
        d.spawns@.len(),
    ) + enc_entity_items(d.spawns@) + len8(d.updates@.len()) + enc_update_items(d.updates@)
        + len8(d.despawns@.len()) + enc_u64_items(d.despawns@)
}

/// Appends the encoding of the components `cs`.
pub fn write_comps(out: &mut Vec<u8>, cs: &Vec<ComponentValue>)
    ensures
        final(out)@ == old(out)@ + enc_comps(cs@),
{
    write_u64(out, cs.len() as u64);
    let ghost start = out@;
    let mut i: usize = 0;
    while i < cs.len()
        invariant
            i <= cs@.len(),
            start == old(out)@ + len8(cs@.len()),
            out@ == start + enc_comp_items(cs@.subrange(0, i as int)),
        decreases cs@.len() - i,
    {
        let c = &cs[i];
        write_u32(out, c.kind);
        write_u64(out, c.data.len() as u64);
        append(out, &c.data);
        assert(cs@.subrange(0, i + 1).drop_last() =~= cs@.subrange(0, i as int));
        i = i + 1;
        assert(out@ =~= start + enc_comp_items(cs@.subrange(0, i as int)));
    }
    assert(cs@.subrange(0, cs@.len() as int) =~= cs@);
    assert(out@ =~= old(out)@ + enc_comps(cs@));
}

/// Appends the encoding of the entities `es`, without their count.
fn write_entities(out: &mut Vec<u8>, es: &Vec<EntityState>)
    ensures
        final(out)@ == old(out)@ + enc_entity_items(es@),
{
    let mut i: usize = 0;
    while i < es.len()
        invariant
            i <= es@.len(),
            out@ == old(out)@ + enc_entity_items(es@.subrange(0, i as int)),
        decreases es@.len() - i,
    {
        let e = &es[i];
        write_u64(out, e.id);
        write_comps(out, &e.components);
        assert(es@.subrange(0, i + 1).drop_last() =~= es@.subrange(0, i as int));
        i = i + 1;
        assert(out@ =~= old(out)@ + enc_entity_items(es@.subrange(0, i as int)));
    }
    assert(es@.subrange(0, es@.len() as int) =~= es@);
}

/// Appends the encoding of the kinds `ks`, without their count.
fn write_kinds(out: &mut Vec<u8>, ks: &Vec<u32>)
    ensures
        final(out)@ == old(out)@ + enc_u32_items(ks@),
{
    let mut j: usize = 0;
    while j < ks.len()
        invariant
            j <= ks@.len(),
            out@ == old(out)@ + enc_u32_items(ks@.subrange(0, j as int)),
        decreases ks@.len() - j,
    {
        write_u32(out, ks[j]);
        assert(ks@.subrange(0, j + 1).drop_last() =~= ks@.subrange(0, j as int));
        j = j + 1;
        assert(out@ =~= old(out)@ + enc_u32_items(ks@.subrange(0, j as int)));
    }
    assert(ks@.subrange(0, ks@.len() as int) =~= ks@);
}

/// Appends the encoding of the updates `us`, without their count.
fn write_updates(out: &mut Vec<u8>, us: &Vec<EntityUpdate>)
    ensures
        final(out)@ == old(out)@ + enc_update_items(us@),
{
    let mut i: usize = 0;
    while i < us.len()
        invariant
            i <= us@.len(),
            out@ == old(out)@ + enc_update_items(us@.subrange(0, i as int)),
        decreases us@.len() - i,
    {
        let u = &us[i];
        let ghost before = out@;
        write_u64(out, u.id);
        write_comps(out, &u.changed);
        write_u64(out, u.removed.len() as u64);
        write_kinds(out, &u.removed);
        assert(out@ =~= before + enc_update(*u));
        assert(us@.subrange(0, i + 1).drop_last() =~= us@.subrange(0, i as int));
        i = i + 1;
        assert(out@ =~= old(out)@ + enc_update_items(us@.subrange(0, i as int)));
    }
    assert(us@.subrange(0, us@.len() as int) =~= us@);
}

/// Appends the encoding of the ids `ids`, without their count.
fn write_ids(out: &mut Vec<u8>, ids: &Vec<u64>)
    ensures
        final(out)@ == old(out)@ + enc_u64_items(ids@),
{
    let mut i: usize = 0;
    while i < ids.len()
        invariant
            i <= ids@.len(),
            out@ == old(out)@ + enc_u64_items(ids@.subrange(0, i as int)),
        decreases ids@.len() - i,
    {
        write_u64(out, ids[i]);
        assert(ids@.subrange(0, i + 1).drop_last() =~= ids@.subrange(0, i as int));
        i = i + 1;
        assert(out@ =~= old(out)@ + enc_u64_items(ids@.subrange(0, i as int)));
    }
    assert(ids@.subrange(0, ids@.len() as int) =~= ids@);
}

/// The bytes of `d`.
pub fn encode_diff(d: &WorldDiff) -> (r: Vec<u8>)
    ensures
        r@ == encode_diff_spec(*d),
{
    let mut out: Vec<u8> = Vec::new();
    write_u64(&mut out, d.tick);
    out.push(if d.full { 1u8 } else { 0u8 });
    write_u64(&mut out, d.baseline_tick);
    write_u64(&mut out, d.spawns.len() as u64);
    write_entities(&mut out, &d.spawns);
    write_u64(&mut out, d.updates.len() as u64);
    write_updates(&mut out, &d.updates);
    write_u64(&mut out, d.despawns.len() as u64);
    write_ids(&mut out, &d.despawns);
    assert(out@ =~= encode_diff_spec(*d));
    out
}

} // verus!
