//! What holds of sessions as a whole: of the shard framing, of the groups kept,
//! and of what is handed to a stream.
use vstd::prelude::*;

use super::config::KCP_WIRE_OVERHEAD;
use super::model;
use super::session;
use super::session::{Channel, Session, SessionError};
use super::shards;
use super::shards::{Code, Group, Sending, FEC_GROUP_EXPIRE_MS, FEC_HEADER_SIZE, MAX_SHARD_SETS, TYPE_DATA, TYPE_PARITY};
use crate::bytes;
use crate::kcp_compat;

verus! {

// ── framing ─────────────────────────────────────────────────────────────

/// A shard on the wire is recognised as one, and its id, its kind and its
/// contents can be read back.
pub proof fn law_shard_framing_roundtrip(seqid: u32, kind: u16, shard: Seq<u8>)
    requires
        kind == TYPE_DATA || kind == TYPE_PARITY,
    ensures
        session::is_shard(shards::framed(seqid, kind, shard)),
        bytes::le32_at(shards::framed(seqid, kind, shard), 0) == seqid,
        bytes::le16_at(shards::framed(seqid, kind, shard), 4) == kind,
        shards::framed(seqid, kind, shard).skip(FEC_HEADER_SIZE as int) == shard,
{
    let f = shards::framed(seqid, kind, shard);
    assert(f.subrange(0, 4) =~= bytes::le32(seqid));
    assert(f.subrange(4, 6) =~= bytes::le16(kind));
    bytes::law_little_endian_roundtrip(f, 0, 0, seqid);
    bytes::law_little_endian_roundtrip(f, 4, kind, 0);
    assert(f.skip(6) =~= shard);
}

/// A data shard, padded or not, carries the packet that was wrapped, trailing
/// zeros and all. (A packet that is empty, or longer than SIZE can say, is
/// left out.)
pub proof fn law_shard_carries_its_packet(raw: Seq<u8>, n: nat)
    requires
        0 < raw.len() <= 65533,
        n >= raw.len() + 2,
    ensures
        shards::carried(shards::rs_payload(raw)) == Some(raw),
        shards::carried(shards::zero_extended(shards::rs_payload(raw), n)) == Some(raw),
{
    let p = shards::rs_payload(raw);
    let z = shards::zero_extended(p, n);
    let size = (2 + raw.len()) as u16;
    assert(p.subrange(0, 2) =~= bytes::le16(size));
    assert(z.subrange(0, 2) =~= bytes::le16(size));
    bytes::law_little_endian_roundtrip(p, 0, size, 0);
    bytes::law_little_endian_roundtrip(z, 0, size, 0);
    assert(p.subrange(2, 2int + raw.len()) =~= raw);
    assert(z.subrange(2, 2int + raw.len()) =~= raw);
}

/// Each packet is sent as a data shard at once, under the next id.
pub proof fn law_data_shard_goes_first(c: Code, w: Sending, raw: Seq<u8>)
    ensures
        shards::wrapped(c, w, raw).1.len() >= 1,
        shards::wrapped(c, w, raw).1[0] == shards::framed(
            w.seqid,
            TYPE_DATA,
            shards::rs_payload(raw),
        ),
{
}

/// Shards keep their places: as long as the ids do not wrap around, a group of
/// shards starts at a multiple of the group's size, so the receiver finds the
/// `i`-th data shard at place `i` and the `i`-th parity shard behind them all.
#[verifier::spinoff_prover]
#[verifier::rlimit(50)]
pub proof fn law_groups_stay_aligned(c: Code, w: Sending, raw: Seq<u8>)
    requires
        0 < c.k,
        0 < c.p,
        w.shards.len() < c.k,
        w.seqid + c.k + c.p < 0x1_0000_0000,
        (w.seqid - w.shards.len()) % (c.k + c.p) as int == 0,
        w.seqid >= w.shards.len(),
    ensures
        session::shard_place(c, w.seqid) == w.shards.len(),
        session::group_begin(c, w.seqid) == w.seqid - w.shards.len(),
        ({
            let v = shards::wrapped(c, w, raw).0;
            &&& v.shards.len() < c.k
            &&& v.seqid >= v.shards.len()
            &&& (v.seqid - v.shards.len()) % (c.k + c.p) as int == 0
        }),
        w.shards.len() + 1 == c.k ==> forall|i: int|
            #![trigger shards::wrapped(c, w, raw).1[1 + i]]
            0 <= i < c.p ==> session::shard_place(
                c,
                bytes::le32_at(shards::wrapped(c, w, raw).1[1 + i], 0),
            ) == c.k + i && session::group_begin(
                c,
                bytes::le32_at(shards::wrapped(c, w, raw).1[1 + i], 0),
            ) == session::group_begin(c, w.seqid),
{
    let t = (c.k + c.p) as int;
    let b = w.seqid - w.shards.len();
    assert forall|i: int| 0 <= i < t implies #[trigger] ((b + i) % t) == i by {
        assert((b + i) % t == i) by (nonlinear_arith)
            requires
                b % t == 0,
                0 <= i < t,
        ;
    }
    assert((b + w.shards.len()) % t == w.shards.len());
    assert((b + t) % t == 0) by (nonlinear_arith)
        requires
            b % t == 0,
            t > 0,
    ;
    let (v, out) = shards::wrapped(c, w, raw);
    if w.shards.len() + 1 == c.k {
        assert(v.seqid == b + t);
        assert forall|i: int|
            #![trigger out[1 + i]]
            0 <= i < c.p implies session::shard_place(c, bytes::le32_at(out[1 + i], 0)) == c.k + i
            && session::group_begin(c, bytes::le32_at(out[1 + i], 0)) == session::group_begin(
            c,
            w.seqid,
        ) by {
            let id = model::plus(model::plus(w.seqid, 1), i);
            assert(id == b + (c.k + i));
            assert((b + (c.k + i)) % t == c.k + i);
            law_shard_framing_roundtrip(
                id,
                TYPE_PARITY,
                kcp_compat::parity_shard(
                    c.rows,
                    shards::blocks(w.shards.push(shards::rs_payload(raw))),
                    i,
                    shards::longest(w.shards.push(shards::rs_payload(raw))),
                ),
            );
        }
    }
}

/// No wire packet is longer than `m + KCP_WIRE_OVERHEAD` where no KCP packet
/// is longer than `m`.
pub proof fn law_wire_packets_fit(c: Code, w: Sending, raw: Seq<u8>, m: nat)
    requires
        raw.len() <= m,
        forall|i: int| 0 <= i < w.shards.len() ==> (#[trigger] w.shards[i]).len() <= m + 2,
    ensures
        forall|i: int|
            0 <= i < shards::wrapped(c, w, raw).1.len() ==> (#[trigger] shards::wrapped(
                c,
                w,
                raw,
            ).1[i]).len() <= m + KCP_WIRE_OVERHEAD,
        forall|i: int|
            0 <= i < shards::wrapped(c, w, raw).0.shards.len() ==> (#[trigger] shards::wrapped(
                c,
                w,
                raw,
            ).0.shards[i]).len() <= m + 2,
{
    let all = w.shards.push(shards::rs_payload(raw));
    assert forall|i: int| 0 <= i < all.len() implies (#[trigger] all[i]).len() <= m + 2 by {
        if i < w.shards.len() {
            assert(all[i] == w.shards[i]);
        }
    }
    lemma_longest_at_most(all, m + 2);
}

proof fn lemma_longest_at_most(s: Seq<Seq<u8>>, n: nat)
    requires
        forall|i: int| 0 <= i < s.len() ==> (#[trigger] s[i]).len() <= n,
    ensures
        shards::longest(s) <= n,
    decreases s.len(),
{
    if s.len() > 0 {
        assert forall|i: int| 0 <= i < s.drop_last().len() implies (
        #[trigger] s.drop_last()[i]).len() <= n by {
            assert(s.drop_last()[i] == s[i]);
        }
        lemma_longest_at_most(s.drop_last(), n);
        assert(s.last() == s[s.len() - 1]);
    }
}

proof fn lemma_longest_reaches(s: Seq<Seq<u8>>, i: int)
    requires
        0 <= i < s.len(),
    ensures
        s[i].len() <= shards::longest(s),
    decreases s.len(),
{
    if i < s.len() - 1 {
        assert(s.drop_last()[i] == s[i]);
        lemma_longest_reaches(s.drop_last(), i);
    }
}

// ── recovery ────────────────────────────────────────────────────────────

/// The shards that the packets `raws` are sent as.
pub open spec fn payloads(raws: Seq<Seq<u8>>) -> Seq<Seq<u8>> {
    Seq::new(raws.len(), |i: int| shards::rs_payload(raws[i]))
}

/// `held` are some of the shards of the group that carries `raws`.
pub open spec fn some_shards_of(c: Code, raws: Seq<Seq<u8>>, held: Seq<Option<Seq<u8>>>) -> bool {
    &&& held.len() == c.k + c.p
    &&& forall|i: int|
        0 <= i < held.len() && (#[trigger] held[i]) is Some ==> held[i]->0 == (if i < c.k {
            shards::rs_payload(raws[i])
        } else {
            kcp_compat::parity_shard(
                c.rows,
                shards::blocks(payloads(raws)),
                i - c.k,
                shards::longest(payloads(raws)),
            )
        })
}

proof fn lemma_held_is_present(b: Seq<Option<Vec<u8>>>, n: int)
    requires
        0 <= n <= b.len(),
    ensures
        kcp_compat::present(b, 0, n).len() == shards::held(shards::shard_views(b).take(n)),
    decreases n,
{
    let v = shards::shard_views(b);
    if n > 0 {
        lemma_held_is_present(b, n - 1);
        assert(v.take(n).drop_last() =~= v.take(n - 1));
    } else {
        assert(v.take(0) =~= Seq::empty());
    }
}

proof fn lemma_held_parts(s: Seq<Option<Seq<u8>>>, k: int)
    requires
        0 <= k <= s.len(),
        forall|i: int| k <= i < s.len() ==> (#[trigger] s[i]) is None,
    ensures
        shards::held(s) == shards::held(s.take(k)),
    decreases s.len(),
{
    if k < s.len() {
        assert(s.drop_last().take(k) =~= s.take(k));
        lemma_held_parts(s.drop_last(), k);
        assert(s.last() == s[s.len() - 1]);
    } else {
        assert(s.take(k) =~= s);
    }
}

proof fn lemma_held_all(s: Seq<Option<Seq<u8>>>, j: int)
    requires
        0 <= j < s.len(),
        s[j] is None,
    ensures
        shards::held(s) < s.len(),
    decreases s.len(),
{
    if j < s.len() - 1 {
        assert(s.drop_last()[j] == s[j]);
        lemma_held_all(s.drop_last(), j);
    } else {
        lemma_held_at_most(s.drop_last());
    }
}

proof fn lemma_held_at_most(s: Seq<Option<Seq<u8>>>)
    ensures
        shards::held(s) <= s.len(),
    decreases s.len(),
{
    if s.len() > 0 {
        lemma_held_at_most(s.drop_last());
    }
}

proof fn lemma_longest_held_is(s: Seq<Option<Seq<u8>>>, n: nat, j: int)
    requires
        0 <= j < s.len(),
        s[j] is Some,
        s[j]->0.len() == n,
        forall|i: int| 0 <= i < s.len() && (#[trigger] s[i]) is Some ==> s[i]->0.len() <= n,
    ensures
        shards::longest_held(s) == n,
    decreases s.len(),
{
    let t = s.drop_last();
    if j < s.len() - 1 {
        assert forall|i: int| 0 <= i < t.len() && (#[trigger] t[i]) is Some implies t[i]->0.len()
            <= n by {
            assert(t[i] == s[i]);
        }
        assert(t[j] == s[j]);
        lemma_longest_held_is(t, n, j);
        assert(s.last() == s[s.len() - 1]);
    } else {
        lemma_longest_held_at_most(t, n, s);
    }
}

proof fn lemma_longest_held_at_most(t: Seq<Option<Seq<u8>>>, n: nat, s: Seq<Option<Seq<u8>>>)
    requires
        t.len() <= s.len(),
        t == s.take(t.len() as int),
        forall|i: int| 0 <= i < s.len() && (#[trigger] s[i]) is Some ==> s[i]->0.len() <= n,
    ensures
        shards::longest_held(t) <= n,
    decreases t.len(),
{
    if t.len() > 0 {
        assert(t.drop_last() =~= s.take(t.len() - 1));
        lemma_longest_held_at_most(t.drop_last(), n, s);
        assert(t.last() == s[t.len() - 1]);
    }
}

/// Lost packets come back: where a group has as many shards as there are data
/// shards, whichever they are, the recovery gives exactly the packets of the
/// data shards that are missing.
pub proof fn law_lost_packets_are_recovered(
    c: Code,
    raws: Seq<Seq<u8>>,
    held: Seq<Option<Seq<u8>>>,
    packets: Seq<Option<Seq<u8>>>,
)
    requires
        kcp_compat::parity_code(c.rows, c.k, c.p),
        0 < c.k,
        c.k + c.p <= 256,
        raws.len() == c.k,
        forall|i: int| 0 <= i < raws.len() ==> 0 < (#[trigger] raws[i]).len() <= 65533,
        some_shards_of(c, raws, held),
        shards::held(held) >= c.k,
        !session::data_complete(held, c.k),
        shards::recovery(c, held, packets),
    ensures
        packets.len() == c.k,
        forall|i: int|
            0 <= i < c.k ==> #[trigger] packets[i] == (if held[i] is None {
                Some(raws[i])
            } else {
                None
            }),
{
    let pays = payloads(raws);
    let n = shards::longest(pays);
    let data = shards::blocks(pays);
    let (before, after) = choose|before: Seq<Option<Vec<u8>>>, after: Seq<Option<Vec<u8>>>|
        shards::recovers(c, held, packets, before, after);
    let views = shards::shard_views(before);
    assert(views == shards::equalized(held));
    assert(views.len() == before.len());
    assert(shards::equalized(held).len() == held.len());
    // A parity shard is among them, so they have the length of the blocks.
    let lost = choose|i: int| 0 <= i < c.k && (#[trigger] held[i]) is None;
    assert(held.take(c.k as int)[lost] is None);
    lemma_held_all(held.take(c.k as int), lost);
    if forall|i: int| c.k <= i < held.len() ==> (#[trigger] held[i]) is None {
        lemma_held_parts(held, c.k as int);
    }
    let j = choose|j: int| c.k <= j < held.len() && (#[trigger] held[j]) is Some;
    assert forall|i: int| 0 <= i < held.len() && (#[trigger] held[i]) is Some implies held[i]->0.len()
        <= n by {
        if i < c.k {
            assert(pays[i] == shards::rs_payload(raws[i]));
            lemma_longest_reaches(pays, i);
        }
    }
    lemma_longest_held_is(held, n, j);
    assert forall|i: int| 0 <= i < before.len() && (#[trigger] before[i]) is Some implies before[i]->0@
        == (if i < c.k {
        data[i]
    } else {
        kcp_compat::parity_shard(c.rows, data, i - c.k, n)
    }) by {
        assert(views[i] == Some(before[i]->0@));
        assert(shards::equalized(held)[i] == Some(shards::zero_extended(held[i]->0, n)));
        if i < c.k {
            assert(held[i]->0 == pays[i]);
        } else {
            assert(shards::zero_extended(held[i]->0, n) =~= held[i]->0);
        }
    }
    assert(views.take(before.len() as int) =~= views);
    lemma_held_is_present(before, before.len() as int);
    lemma_held_same(held, views);
    lemma_longest_reaches(pays, 0);
    kcp_compat::law_any_k_shards_suffice(c.rows, c.k, c.p, before);
    kcp_compat::lemma_present(before, 0, before.len() as int);
    let f = kcp_compat::present(before, 0, before.len() as int)[0];
    assert(before[f] is Some);
    assert(kcp_compat::block_size(before) == n);
    kcp_compat::law_reconstruction_recovers_data(c.rows, c.k, c.p, data, n, before, after);
    assert forall|i: int| 0 <= i < c.k implies #[trigger] packets[i] == (if held[i] is None {
        Some(raws[i])
    } else {
        None
    }) by {
        assert(after[i]->0@ == data[i]);
        lemma_longest_reaches(pays, i);
        law_shard_carries_its_packet(raws[i], n);
    }
}

proof fn lemma_held_same(a: Seq<Option<Seq<u8>>>, b: Seq<Option<Seq<u8>>>)
    requires
        a.len() == b.len(),
        forall|i: int| 0 <= i < a.len() ==> ((#[trigger] a[i]) is Some <==> b[i] is Some),
    ensures
        shards::held(a) == shards::held(b),
    decreases a.len(),
{
    if a.len() > 0 {
        assert forall|i: int| 0 <= i < a.drop_last().len() implies ((
        #[trigger] a.drop_last()[i]) is Some <==> b.drop_last()[i] is Some) by {
            assert(a.drop_last()[i] == a[i]);
        }
        lemma_held_same(a.drop_last(), b.drop_last());
        assert(a.last() == a[a.len() - 1]);
    }
}

// ── groups kept ─────────────────────────────────────────────────────────

/// When a packet comes in, at most `MAX_SHARD_SETS` groups stay, each of which
/// received a shard within `FEC_GROUP_EXPIRE_MS`.
pub proof fn law_few_and_fresh_groups_stay(gs: Seq<Group>, now: u64)
    ensures
        shards::pruned(gs, now).len() <= MAX_SHARD_SETS,
        forall|i: int|
            0 <= i < shards::pruned(gs, now).len() ==> {
                &&& now - (#[trigger] shards::pruned(gs, now)[i]).active <= FEC_GROUP_EXPIRE_MS
                &&& gs.contains(shards::pruned(gs, now)[i])
            },
{
    lemma_fresh(gs, now);
    let fresh = shards::fresh_groups(gs, now);
    lemma_newest(fresh);
    let kept = shards::newest_groups(fresh);
    assert forall|i: int| 0 <= i < kept.len() implies now - (#[trigger] kept[i]).active
        <= FEC_GROUP_EXPIRE_MS && gs.contains(kept[i]) by {
        let j = choose|j: int| 0 <= j < fresh.len() && fresh[j] == kept[i];
        assert(shards::is_fresh(fresh[j], now));
    }
}

/// A fresh group makes way only for groups with ids no smaller than its own,
/// and only where there are too many.
pub proof fn law_oldest_group_makes_way(gs: Seq<Group>, now: u64, g: Group)
    requires
        gs.contains(g),
        shards::is_fresh(g, now),
        !shards::pruned(gs, now).contains(g),
    ensures
        shards::pruned(gs, now).len() == MAX_SHARD_SETS,
        forall|i: int|
            0 <= i < shards::pruned(gs, now).len() ==> g.begin <= (#[trigger] shards::pruned(
                gs,
                now,
            )[i]).begin,
{
    lemma_fresh_keeps(gs, now, g);
    lemma_newest_drops(shards::fresh_groups(gs, now), g);
}

proof fn lemma_fresh(gs: Seq<Group>, now: u64)
    ensures
        forall|i: int|
            0 <= i < shards::fresh_groups(gs, now).len() ==> shards::is_fresh(
                #[trigger] shards::fresh_groups(gs, now)[i],
                now,
            ) && gs.contains(shards::fresh_groups(gs, now)[i]),
    decreases gs.len(),
{
    if gs.len() > 0 {
        let t = gs.drop_last();
        lemma_fresh(t, now);
        let f = shards::fresh_groups(gs, now);
        let ft = shards::fresh_groups(t, now);
        assert forall|i: int| 0 <= i < f.len() implies shards::is_fresh(#[trigger] f[i], now)
            && gs.contains(f[i]) by {
            if i < ft.len() {
                assert(f[i] == ft[i]);
                let j = choose|j: int| 0 <= j < t.len() && t[j] == ft[i];
                assert(gs[j] == f[i]);
            } else {
                assert(gs[gs.len() - 1] == f[i]);
            }
        }
    }
}

proof fn lemma_fresh_keeps(gs: Seq<Group>, now: u64, g: Group)
    requires
        gs.contains(g),
        shards::is_fresh(g, now),
    ensures
        shards::fresh_groups(gs, now).contains(g),
    decreases gs.len(),
{
    let f = shards::fresh_groups(gs, now);
    if gs.last() == g {
        assert(f[f.len() - 1] == g);
    } else {
        let t = gs.drop_last();
        let j = choose|j: int| 0 <= j < gs.len() && gs[j] == g;
        assert(t[j] == g);
        lemma_fresh_keeps(t, now, g);
        let ft = shards::fresh_groups(t, now);
        let i = choose|i: int| 0 <= i < ft.len() && ft[i] == g;
        assert(f[i] == g);
    }
}

proof fn lemma_smallest_is_least(gs: Seq<Group>)
    requires
        gs.len() > 0,
    ensures
        0 <= shards::smallest(gs) < gs.len(),
        forall|j: int|
            0 <= j < gs.len() ==> gs[shards::smallest(gs)].begin <= (#[trigger] gs[j]).begin,
    decreases gs.len(),
{
    if gs.len() > 1 {
        let t = gs.drop_last();
        lemma_smallest_is_least(t);
        let i = shards::smallest(t);
        assert(t[i] == gs[i]);
        assert forall|j: int| 0 <= j < gs.len() implies gs[shards::smallest(gs)].begin <= (
        #[trigger] gs[j]).begin by {
            if j < t.len() {
                assert(t[j] == gs[j]);
            }
        }
    }
}

proof fn lemma_newest(gs: Seq<Group>)
    ensures
        shards::newest_groups(gs).len() <= MAX_SHARD_SETS,
        gs.len() >= MAX_SHARD_SETS ==> shards::newest_groups(gs).len() == MAX_SHARD_SETS,
        forall|i: int|
            0 <= i < shards::newest_groups(gs).len() ==> gs.contains(
                #[trigger] shards::newest_groups(gs)[i],
            ),
    decreases gs.len(),
{
    let kept = shards::newest_groups(gs);
    if gs.len() > MAX_SHARD_SETS {
        lemma_smallest_is_least(gs);
        let i = shards::smallest(gs);
        let rest = gs.remove(i);
        lemma_newest(rest);
        assert forall|t: int| 0 <= t < kept.len() implies gs.contains(#[trigger] kept[t]) by {
            let j = choose|j: int| 0 <= j < rest.len() && rest[j] == kept[t];
            assert(gs[if j < i {
                j
            } else {
                j + 1
            }] == kept[t]);
        }
    } else {
        assert forall|t: int| 0 <= t < kept.len() implies gs.contains(#[trigger] kept[t]) by {
            assert(gs[t] == kept[t]);
        }
    }
}

proof fn lemma_newest_drops(gs: Seq<Group>, g: Group)
    requires
        gs.contains(g),
        !shards::newest_groups(gs).contains(g),
    ensures
        shards::newest_groups(gs).len() == MAX_SHARD_SETS,
        forall|i: int|
            0 <= i < shards::newest_groups(gs).len() ==> g.begin <= (
            #[trigger] shards::newest_groups(gs)[i]).begin,
    decreases gs.len(),
{
    lemma_newest(gs);
    let kept = shards::newest_groups(gs);
    if gs.len() > MAX_SHARD_SETS {
        lemma_smallest_is_least(gs);
        let i = shards::smallest(gs);
        let rest = gs.remove(i);
        let j = choose|j: int| 0 <= j < gs.len() && gs[j] == g;
        if gs[i] == g {
            assert forall|t: int| 0 <= t < kept.len() implies g.begin <= (#[trigger] kept[t]).begin by {
                assert(gs.contains(kept[t]));
                let u = choose|u: int| 0 <= u < gs.len() && gs[u] == kept[t];
                assert(gs[i].begin <= gs[u].begin);
            }
        } else {
            assert(rest[if j < i {
                j
            } else {
                j - 1
            }] == g);
            lemma_newest_drops(rest, g);
        }
    }
}

// ── delivery ────────────────────────────────────────────────────────────

/// What is handed to a stream comes behind what is there, and no empty frame
/// is among it: to the reader an empty frame would be the end.
pub proof fn law_no_empty_frame_is_delivered(s: Session, ch: Channel)
    requires
        s.pending matches Some(m) ==> m.len() > 0,
    ensures
        ({
            let (t, after, r) = session::handed_over(s, ch);
            &&& ch.frames.is_prefix_of(after.frames)
            &&& forall|i: int|
                ch.frames.len() <= i < after.frames.len() ==> (#[trigger] after.frames[i]).len() > 0
            &&& t.pending matches Some(m) ==> m.len() > 0
        }),
{
    match s.pending {
        Some(m) => {
            if !ch.closed && ch.frames.len() < ch.capacity {
                let c = Channel { frames: ch.frames.push(m), ..ch };
                let t = Session { pending: None, ..s };
                lemma_drained_appends(t, c);
                let after = session::drained(t, c).1;
                assert(ch.frames.is_prefix_of(after.frames)) by {
                    assert(c.frames.is_prefix_of(after.frames));
                    assert(c.frames.take(ch.frames.len() as int) =~= ch.frames);
                }
                assert forall|i: int| ch.frames.len() <= i < after.frames.len() implies (
                #[trigger] after.frames[i]).len() > 0 by {
                    if i == ch.frames.len() {
                        assert(c.frames[i] == after.frames[i]);
                    }
                }
            }
        },
        None => {
            lemma_drained_appends(s, ch);
        },
    }
}

proof fn lemma_drained_appends(s: Session, ch: Channel)
    requires
        s.pending is None,
    ensures
        ({
            let (t, after, r) = session::drained(s, ch);
            &&& ch.frames.is_prefix_of(after.frames)
            &&& forall|i: int|
                ch.frames.len() <= i < after.frames.len() ==> (#[trigger] after.frames[i]).len() > 0
            &&& t.pending matches Some(m) ==> m.len() > 0
        }),
    decreases session::waiting(s.kcp),
{
    let q = s.kcp.rcv_queue;
    if model::receive_error(q) is None {
        session::lemma_received_waiting(s.kcp);
        let m = model::message(q);
        let t = Session { kcp: model::received(s.kcp), ..s };
        if m.len() > usize::MAX {
        } else if m.len() == 0 {
            lemma_drained_appends(t, ch);
        } else if !ch.closed && ch.frames.len() < ch.capacity {
            let c = Channel { frames: ch.frames.push(m), ..ch };
            lemma_drained_appends(t, c);
            let after = session::drained(t, c).1;
            assert(c.frames.take(ch.frames.len() as int) =~= ch.frames);
            assert forall|i: int| ch.frames.len() <= i < after.frames.len() implies (
            #[trigger] after.frames[i]).len() > 0 by {
                if i == ch.frames.len() {
                    assert(c.frames[i] == after.frames[i]);
                }
            }
        }
    }
}

/// A frame that was kept goes before anything else, once there is room; until
/// then nothing more is taken from the state machine.
pub proof fn law_kept_frame_goes_first(s: Session, ch: Channel)
    requires
        s.pending is Some,
        !ch.closed,
    ensures
        ch.frames.len() >= ch.capacity ==> session::handed_over(s, ch) == (
            s,
            ch,
            Ok::<(), SessionError>(()),
        ),
        ch.frames.len() < ch.capacity ==> ch.frames.push(s.pending->0).is_prefix_of(
            session::handed_over(s, ch).1.frames,
        ),
{
    if ch.frames.len() < ch.capacity {
        lemma_drained_appends(
            Session { pending: None, ..s },
            Channel { frames: ch.frames.push(s.pending->0), ..ch },
        );
    }
}

/// Three groups are waited for at once, each for a minute after its last shard:
/// while there are no more, no fresh one is given up.
pub proof fn law_groups_are_waited_for(gs: Seq<Group>, now: u64)
    requires
        gs.len() <= 3,
        forall|i: int|
            0 <= i < gs.len() ==> now - (#[trigger] gs[i]).active <= 60_000,
    ensures
        shards::pruned(gs, now) == gs,
{
    lemma_all_fresh(gs, now);
}

proof fn lemma_all_fresh(gs: Seq<Group>, now: u64)
    requires
        forall|i: int|
            0 <= i < gs.len() ==> now - (#[trigger] gs[i]).active <= 60_000,
    ensures
        shards::fresh_groups(gs, now) == gs,
    decreases gs.len(),
{
    if gs.len() > 0 {
        let head = gs.drop_last();
        assert forall|i: int| 0 <= i < head.len() implies now - (#[trigger] head[i]).active
            <= 60_000 by {
            assert(head[i] == gs[i]);
        }
        lemma_all_fresh(head, now);
        assert(gs.last() == gs[gs.len() - 1]);
        assert(head.push(gs.last()) =~= gs);
    }
}

/// A group that received nothing for more than a minute is given up, and so are
/// those that are too many for three.
pub proof fn law_stale_groups_are_given_up(gs: Seq<Group>, now: u64, i: int)
    requires
        0 <= i < shards::pruned(gs, now).len(),
    ensures
        shards::pruned(gs, now).len() <= 3,
        now - shards::pruned(gs, now)[i].active <= 60_000,
{
    law_few_and_fresh_groups_stay(gs, now);
}

/// Where the fields of a shard stand: the id in four bytes, the type in two, the
/// size in two, lowest first, then the packet. The size counts itself.
pub proof fn law_shard_layout(seqid: u32, kind: u16, raw: Seq<u8>)
    requires
        raw.len() <= 65_533,
    ensures
        ({
            let f = shards::framed(seqid, kind, shards::rs_payload(raw));
            &&& f.len() == 8 + raw.len()
            &&& f[0] + 256 * f[1] + 65_536 * f[2] + 16_777_216 * f[3] == seqid
            &&& f[4] + 256 * f[5] == kind
            &&& f[6] + 256 * f[7] == 2 + raw.len()
            &&& f.skip(8) == raw
        }),
{
    let p = shards::rs_payload(raw);
    let f = shards::framed(seqid, kind, p);
    let (a, b) = (bytes::le32(seqid), bytes::le16(kind));
    let c = bytes::le16((2 + raw.len()) as u16);
    bytes::law_byte_order(kind, seqid, 0);
    bytes::law_byte_order((2 + raw.len()) as u16, 0, 0);
    assert(f[0] == a[0] && f[1] == a[1] && f[2] == a[2] && f[3] == a[3]);
    assert(f[4] == b[0] && f[5] == b[1] && f[6] == c[0] && f[7] == c[1]);
    assert(f.skip(8) =~= raw);
}

/// Data shards and parity shards are told apart by the types 0xf1 and 0xf2, and
/// the shards of a group carry ids that follow each other.
pub proof fn law_shard_types(c: Code, w: Sending, raw: Seq<u8>, i: int)
    requires
        0 <= i < shards::wrapped(c, w, raw).1.len(),
    ensures
        ({
            let out = shards::wrapped(c, w, raw).1;
            &&& out[i][4] == (if i == 0 {
                0xf1u8
            } else {
                0xf2u8
            })
            &&& out[i][5] == 0
            &&& bytes::le32_at(out[i], 0) == model::plus(w.seqid, i)
            &&& out.len() == (if w.shards.len() + 1 == c.k {
                1 + c.p
            } else {
                1
            })
        }),
{
    let out = shards::wrapped(c, w, raw).1;
    let id = model::plus(w.seqid, i);
    let kind: u16 = if i == 0 {
        0xf1
    } else {
        0xf2
    };
    let all = w.shards.push(shards::rs_payload(raw));
    let body = if i == 0 {
        shards::rs_payload(raw)
    } else {
        kcp_compat::parity_shard(c.rows, shards::blocks(all), i - 1, shards::longest(all))
    };
    assert(model::plus(model::plus(w.seqid, 1), i - 1) == id);
    assert(model::plus(w.seqid, 0) == w.seqid);
    let f = shards::framed(id, kind, body);
    assert(out[i] == f);
    assert(f.subrange(0, 4) =~= bytes::le32(id));
    bytes::law_little_endian_roundtrip(f, 0, 0, id);
    let b = bytes::le16(kind);
    assert(f[4] == b[0] && f[5] == b[1]);
}

/// A peer without a code is understood by one with a code: a packet that does
/// not have the type of a shard in its fifth and sixth byte is taken in the same
/// by both, and one that is too short for a shard's header does no harm.
pub proof fn law_plain_packets_are_understood(
    s: Session,
    c: Code,
    d: Seq<u8>,
    packets: Seq<Option<Seq<u8>>>,
)
    ensures
        d.len() >= 6 && !(d[5] == 0 && (d[4] == 0xf1 || d[4] == 0xf2)) ==> session::taken_in(
            s,
            Some(c),
            d,
            packets,
        ) == session::taken_in(s, None, d, packets),
        d.len() < 6 ==> {
            let (t, r) = session::taken_in(s, Some(c), d, packets);
            r is Ok && t == (Session { groups: t.groups, ..s })
        },
{
}

} // verus!
