//! FEC framing of KCP packets, in the wire format of kcp-go:
//!
//! `| FEC SEQID(4B LE) | FEC TYPE(2B LE) | SIZE(2B LE) | PAYLOAD |`
//!
//! SIZE counts itself and the payload. FEC is inter-packet: `data_shards`
//! consecutive KCP output packets form one Reed-Solomon group; parity shards
//! are generated from the equal-length blocks SIZE + PAYLOAD.
use vstd::prelude::*;

use super::model;
use super::model::State;
use super::protocol::Error;
use crate::bytes;
use crate::kcp_compat;

verus! {

pub const FEC_HEADER_SIZE: usize = 6;

pub const TYPE_DATA: u16 = 0xf1;

pub const TYPE_PARITY: u16 = 0xf2;

/// How many shard groups a session keeps at most when a packet comes in.
pub const MAX_SHARD_SETS: usize = 3;

/// A group that receives no shard for this long (ms) is stale residue, even if
/// it never filled (partial group after extreme reordering or a long silent
/// period).
pub const FEC_GROUP_EXPIRE_MS: u64 = 60_000;

// ── sending ─────────────────────────────────────────────────────────────

/// What the code is computed over: SIZE, then the packet.
pub open spec fn rs_payload(raw: Seq<u8>) -> Seq<u8> {
    bytes::le16(((2 + raw.len()) % 0x1_0000) as u16) + raw
}

/// A shard on the wire.
pub open spec fn framed(seqid: u32, kind: u16, shard: Seq<u8>) -> Seq<u8> {
    bytes::le32(seqid) + bytes::le16(kind) + shard
}

/// The length of the longest of `s`.
pub open spec fn longest(s: Seq<Seq<u8>>) -> nat
    decreases s.len(),
{
    if s.len() == 0 {
        0
    } else if s.last().len() > longest(s.drop_last()) {
        s.last().len()
    } else {
        longest(s.drop_last())
    }
}

/// `s` with zeros behind it up to the length `n`.
pub open spec fn zero_extended(s: Seq<u8>, n: nat) -> Seq<u8> {
    Seq::new(
        n,
        |i: int|
            if i < s.len() {
                s[i]
            } else {
                0u8
            },
    )
}

/// The equal-length blocks of a group.
pub open spec fn blocks(shards: Seq<Seq<u8>>) -> Seq<Seq<u8>> {
    Seq::new(shards.len(), |i: int| zero_extended(shards[i], longest(shards)))
}

/// The parameters of a session's code: its parity rows, the number of data
/// shards and that of parity shards.
pub struct Code {
    pub rows: Seq<Seq<u8>>,
    pub k: nat,
    pub p: nat,
}

/// A group of shards being sent: the sequence id of the next shard, and the
/// data shards sent so far.
#[verifier::ext_equal]
pub struct Sending {
    pub seqid: u32,
    pub shards: Seq<Seq<u8>>,
}

/// The parity packets of a full group, the first with the id `seqid`.
pub open spec fn parity_packets(c: Code, seqid: u32, shards: Seq<Seq<u8>>) -> Seq<Seq<u8>> {
    Seq::new(
        c.p,
        |i: int|
            framed(
                model::plus(seqid, i),
                TYPE_PARITY,
                kcp_compat::parity_shard(c.rows, blocks(shards), i, longest(shards)),
            ),
    )
}

/// A packet wrapped: its data shard, and the parity shards where it completes
/// a group.
pub open spec fn wrapped(c: Code, w: Sending, raw: Seq<u8>) -> (Sending, Seq<Seq<u8>>) {
    let shards = w.shards.push(rs_payload(raw));
    let data = framed(w.seqid, TYPE_DATA, rs_payload(raw));
    let next = model::plus(w.seqid, 1);
    if shards.len() == c.k {
        (
            Sending { seqid: model::plus(next, c.p as int), shards: Seq::empty() },
            seq![data] + parity_packets(c, next, shards),
        )
    } else {
        (Sending { seqid: next, shards }, seq![data])
    }
}

/// The packets `raws` wrapped, one after the other.
pub open spec fn wrapped_all(c: Code, w: Sending, raws: Seq<Seq<u8>>) -> (Sending, Seq<Seq<u8>>)
    decreases raws.len(),
{
    if raws.len() == 0 {
        (w, Seq::empty())
    } else {
        let (v, out) = wrapped_all(c, w, raws.drop_last());
        let (u, more) = wrapped(c, v, raws.last());
        (u, out + more)
    }
}

// ── receiving ───────────────────────────────────────────────────────────

/// The contents of a sequence of shards.
pub open spec fn shard_views(s: Seq<Option<Vec<u8>>>) -> Seq<Option<Seq<u8>>> {
    Seq::new(
        s.len(),
        |i: int|
            match s[i] {
                Some(v) => Some(v@),
                None => None,
            },
    )
}

/// The shards received of one group.
#[verifier::ext_equal]
pub struct Group {
    /// The sequence id of the group's first shard.
    pub begin: u32,
    pub shards: Seq<Option<Seq<u8>>>,
    /// When the last shard came in.
    pub active: u64,
}

/// Whether a group has received a shard recently enough.
pub open spec fn is_fresh(g: Group, now: u64) -> bool {
    now - g.active <= FEC_GROUP_EXPIRE_MS
}

/// The groups that are fresh.
pub open spec fn fresh_groups(gs: Seq<Group>, now: u64) -> Seq<Group>
    decreases gs.len(),
{
    if gs.len() == 0 {
        gs
    } else if is_fresh(gs.last(), now) {
        fresh_groups(gs.drop_last(), now).push(gs.last())
    } else {
        fresh_groups(gs.drop_last(), now)
    }
}

/// The index of the group with the smallest id.
pub open spec fn smallest(gs: Seq<Group>) -> int
    decreases gs.len(),
{
    if gs.len() <= 1 {
        0
    } else {
        let i = smallest(gs.drop_last());
        if gs.last().begin < gs[i].begin {
            gs.len() - 1
        } else {
            i
        }
    }
}

/// The groups without those of the smallest ids, of which there are too many.
pub open spec fn newest_groups(gs: Seq<Group>) -> Seq<Group>
    decreases gs.len(),
{
    if gs.len() <= MAX_SHARD_SETS || !(0 <= smallest(gs) < gs.len()) {
        gs
    } else {
        newest_groups(gs.remove(smallest(gs)))
    }
}

/// The groups that stay when a packet comes in at `now`.
pub open spec fn pruned(gs: Seq<Group>, now: u64) -> Seq<Group> {
    newest_groups(fresh_groups(gs, now))
}

/// No id occurs twice.
pub open spec fn distinct(gs: Seq<Group>) -> bool {
    forall|i: int, j: int|
        0 <= i < j < gs.len() ==> (#[trigger] gs[i]).begin != (#[trigger] gs[j]).begin
}

/// How many shards are there.
pub open spec fn held(shards: Seq<Option<Seq<u8>>>) -> nat
    decreases shards.len(),
{
    if shards.len() == 0 {
        0
    } else {
        held(shards.drop_last()) + if shards.last() is Some {
            1nat
        } else {
            0
        }
    }
}

/// The first place from `i` on where `gs` has the group `begin`.
pub open spec fn place_of(gs: Seq<Group>, begin: u32, i: int) -> int
    decreases gs.len() - i,
{
    if i >= gs.len() || gs[i].begin == begin {
        i
    } else {
        place_of(gs, begin, i + 1)
    }
}

/// The groups with that of `begin` among them, active at `now`.
pub open spec fn touched(gs: Seq<Group>, begin: u32, total: nat, now: u64) -> Seq<Group> {
    let i = place_of(gs, begin, 0);
    if i < gs.len() {
        gs.update(i, Group { active: now, ..gs[i] })
    } else {
        gs.push(
            Group { begin, shards: Seq::new(total, |j: int| None::<Seq<u8>>), active: now },
        )
    }
}

/// The packet that a data shard carries: as much of it as SIZE says; `None`
/// where that is nothing.
pub open spec fn carried(shard: Seq<u8>) -> Option<Seq<u8>> {
    if shard.len() < 2 || bytes::le16_at(shard, 0) < 2 {
        None
    } else {
        let n = model::min(bytes::le16_at(shard, 0) - 2, shard.len() - 2);
        if n > 0 {
            Some(shard.subrange(2, 2 + n))
        } else {
            None
        }
    }
}

/// A packet fed to the state machine, where there is one; the error, if any.
pub open spec fn fed(s: State, packet: Option<Seq<u8>>) -> (State, Option<Error>) {
    match packet {
        Some(d) => match model::input_all(s, d).1 {
            Ok(n) => (model::input_all(s, d).0, None),
            Err(e) => (model::input_all(s, d).0, Some(e)),
        },
        None => (s, None),
    }
}

/// Packets fed to the state machine, until one fails.
pub open spec fn fed_all(s: State, packets: Seq<Option<Seq<u8>>>) -> (State, Option<Error>)
    decreases packets.len(),
{
    if packets.len() == 0 {
        (s, None)
    } else {
        let (t, e) = fed_all(s, packets.drop_last());
        if e is Some {
            (t, e)
        } else {
            fed(t, packets.last())
        }
    }
}

/// The length of the longest shard that is there.
pub open spec fn longest_held(shards: Seq<Option<Seq<u8>>>) -> nat
    decreases shards.len(),
{
    if shards.len() == 0 {
        0
    } else {
        let n = longest_held(shards.drop_last());
        if shards.last() is Some && shards.last()->0.len() > n {
            shards.last()->0.len()
        } else {
            n
        }
    }
}

/// The shards of a group brought to one length.
pub open spec fn equalized(shards: Seq<Option<Seq<u8>>>) -> Seq<Option<Seq<u8>>> {
    Seq::new(
        shards.len(),
        |i: int|
            match shards[i] {
                Some(s) => Some(zero_extended(s, longest_held(shards))),
                None => None,
            },
    )
}

/// The packets of the data shards that were missing in `shards` and are there
/// in `after`.
pub open spec fn newly_carried(
    shards: Seq<Option<Seq<u8>>>,
    after: Seq<Option<Vec<u8>>>,
    k: nat,
) -> Seq<Option<Seq<u8>>> {
    Seq::new(
        k,
        |i: int|
            if shards[i] is None && after[i] is Some {
                carried(after[i]->0@)
            } else {
                None
            },
    )
}

/// `packets` are those that the code recovers from `shards` by way of the
/// reconstruction from `before` to `after`: the packets of the data shards that
/// it fills in, none where there is no reconstruction.
pub open spec fn recovers(
    c: Code,
    shards: Seq<Option<Seq<u8>>>,
    packets: Seq<Option<Seq<u8>>>,
    before: Seq<Option<Vec<u8>>>,
    after: Seq<Option<Vec<u8>>>,
) -> bool {
    &&& shard_views(before) == equalized(shards)
    &&& if kcp_compat::decodable(c.rows, c.k, before) {
        &&& kcp_compat::reconstructed(c.rows, c.k, before, after)
        &&& packets == newly_carried(shards, after, c.k)
    } else {
        packets.len() == 0
    }
}

/// `packets` are those that the code recovers from the shards of a group.
pub open spec fn recovery(
    c: Code,
    shards: Seq<Option<Seq<u8>>>,
    packets: Seq<Option<Seq<u8>>>,
) -> bool {
    exists|before: Seq<Option<Vec<u8>>>, after: Seq<Option<Vec<u8>>>|
        recovers(c, shards, packets, before, after)
}

} // verus!
