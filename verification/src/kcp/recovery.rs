//! Recovery over a session's input: any `k` packets of a group of `k` data and
//! `p` parity packets stand for the `k` data packets.
use vstd::prelude::*;

use super::config::KcpConfig;
use super::delivery;
use super::model;
use super::model::State;
use super::reliability::Content;
use super::session;
use super::session::{Session, SessionError};
use super::session_laws;
use super::shards;
use super::shards::{Code, Group, Sending, FEC_GROUP_EXPIRE_MS, TYPE_DATA, TYPE_PARITY};
use crate::kcp_compat;

verus! {

// ── the first group ─────────────────────────────────────────────────────

/// What a session sends of its first packets `raws`.
pub open spec fn first_packets(c: Code, raws: Seq<Seq<u8>>) -> Seq<Seq<u8>> {
    shards::wrapped_all(c, Sending { seqid: 0, shards: Seq::empty() }, raws).1
}

/// The `i`-th shard of the group that carries `raws`.
pub open spec fn shard_of(c: Code, raws: Seq<Seq<u8>>, i: int) -> Seq<u8> {
    if i < c.k {
        shards::rs_payload(raws[i])
    } else {
        kcp_compat::parity_shard(
            c.rows,
            shards::blocks(session_laws::payloads(raws)),
            i - c.k,
            shards::longest(session_laws::payloads(raws)),
        )
    }
}

/// The `i`-th shard of the first group on the wire.
pub open spec fn packet_of(c: Code, raws: Seq<Seq<u8>>, i: int) -> Seq<u8> {
    shards::framed(
        i as u32,
        if i < c.k {
            TYPE_DATA
        } else {
            TYPE_PARITY
        },
        shard_of(c, raws, i),
    )
}

proof fn lemma_part_of_group(c: Code, raws: Seq<Seq<u8>>, n: nat)
    requires
        n < c.k,
        c.k + c.p <= 256,
        n <= raws.len(),
    ensures
        ({
            let w = Sending { seqid: 0, shards: Seq::empty() };
            let (v, out) = shards::wrapped_all(c, w, raws.take(n as int));
            &&& v.seqid == n
            &&& v.shards == session_laws::payloads(raws.take(n as int))
            &&& out == Seq::new(n, |i: int| packet_of(c, raws, i))
        }),
    decreases n,
{
    let part = raws.take(n as int);
    let w = Sending { seqid: 0, shards: Seq::empty() };
    let (v, out) = shards::wrapped_all(c, w, part);
    if n == 0 {
        assert(v.shards =~= session_laws::payloads(part));
        assert(out =~= Seq::new(n, |i: int| packet_of(c, raws, i)));
    } else {
        let m = (n - 1) as nat;
        lemma_part_of_group(c, raws, m);
        assert(part.drop_last() =~= raws.take(m as int));
        let (u, before) = shards::wrapped_all(c, w, raws.take(m as int));
        assert(part.last() == raws[m as int]);
        assert(u.shards.len() == m);
        assert(v.shards =~= session_laws::payloads(part));
        assert(out =~= Seq::new(n, |i: int| packet_of(c, raws, i)));
    }
}

/// The first `k` packets of a session are sent as one group: their data shards
/// in order, then the parity shards.
pub proof fn law_first_group(c: Code, raws: Seq<Seq<u8>>)
    requires
        0 < c.k,
        c.k + c.p <= 256,
        raws.len() == c.k,
    ensures
        first_packets(c, raws).len() == c.k + c.p,
        forall|i: int|
            0 <= i < c.k + c.p ==> #[trigger] first_packets(c, raws)[i] == packet_of(c, raws, i),
{
    let m = (c.k - 1) as nat;
    lemma_part_of_group(c, raws, m);
    assert(raws.drop_last() =~= raws.take(m as int));
    let w = Sending { seqid: 0, shards: Seq::empty() };
    let (u, before) = shards::wrapped_all(c, w, raws.take(m as int));
    let all = u.shards.push(shards::rs_payload(raws.last()));
    assert(all =~= session_laws::payloads(raws));
    let out = first_packets(c, raws);
    let parity = shards::parity_packets(c, c.k as u32, all);
    assert(out =~= before + (seq![packet_of(c, raws, m as int)] + parity));
    assert forall|i: int| 0 <= i < c.k + c.p implies #[trigger] out[i] == packet_of(c, raws, i) by {
        if i >= c.k {
            assert(out[i] == parity[i - c.k]);
            assert(model::plus(c.k as u32, i - c.k) == i as u32);
        }
    }
}

// ── arrivals ────────────────────────────────────────────────────────────

/// A packet of the group that arrives.
pub struct Arrival {
    /// Which packet it is.
    pub index: int,
    /// The time on the session's clock.
    pub clock: u64,
    /// What a recovery gives, where it comes to one.
    pub packets: Seq<Option<Seq<u8>>>,
}

/// Which packets arrived.
pub open spec fn indices(xs: Seq<Arrival>) -> Seq<int> {
    Seq::new(xs.len(), |i: int| xs[i].index)
}

/// Whether the arrivals are packets of the group, none of which comes so late
/// that the group is stale.
pub open spec fn in_time(xs: Seq<Arrival>, total: int) -> bool {
    &&& forall|i: int| 0 <= i < xs.len() ==> 0 <= (#[trigger] xs[i]).index < total
    &&& forall|i: int, j: int|
        0 <= i < xs.len() && 0 <= j < xs.len() && j == i + 1 ==> (#[trigger] xs[j]).clock - (
        #[trigger] xs[i]).clock <= FEC_GROUP_EXPIRE_MS
}

/// The session after the arrivals, and whether every one was taken in.
pub open spec fn after_arrivals(s: Session, c: Code, ds: Seq<Seq<u8>>, xs: Seq<Arrival>) -> (
    Session,
    bool,
)
    decreases xs.len(),
{
    if xs.len() == 0 {
        (s, true)
    } else {
        let (t, ok) = after_arrivals(s, c, ds, xs.drop_last());
        let x = xs.last();
        let (u, r) = session::taken_in(
            Session { clock: x.clock, ..t },
            Some(c),
            ds[x.index],
            x.packets,
        );
        (u, ok && r == Ok::<(), SessionError>(()))
    }
}

/// Whether `packets` are what a recovery gives where taking in `d` calls for
/// one.
pub open spec fn can_give(
    s: Session,
    c: Code,
    d: Seq<u8>,
    packets: Seq<Option<Seq<u8>>>,
) -> bool {
    let t = session::without_stale(s);
    session::needs_recovery(t, c, d) ==> shards::recovery(
        c,
        session::completed(t, c, d).shards,
        packets,
    )
}

/// Whether a recovery, where it comes to one, gives what the arrivals say.
pub open spec fn can_arrive(s: Session, c: Code, ds: Seq<Seq<u8>>, xs: Seq<Arrival>) -> bool
    decreases xs.len(),
{
    xs.len() > 0 ==> {
        let t = after_arrivals(s, c, ds, xs.drop_last()).0;
        let x = xs.last();
        &&& can_arrive(s, c, ds, xs.drop_last())
        &&& can_give(Session { clock: x.clock, ..t }, c, ds[x.index], x.packets)
    }
}

/// The shards that have arrived.
pub open spec fn gathered(c: Code, raws: Seq<Seq<u8>>, got: Seq<int>) -> Seq<Option<Seq<u8>>> {
    Seq::new(
        c.k + c.p,
        |i: int|
            if got.contains(i) {
                Some(shard_of(c, raws, i))
            } else {
                None
            },
    )
}

/// Whether the data segment `sn` is in a data packet that has arrived.
pub open spec fn told_by_data(c: Code, raws: Seq<Seq<u8>>, got: Seq<int>, sn: int) -> bool {
    exists|i: int| 0 <= i < c.k && got.contains(i) && delivery::tells(#[trigger] raws[i], 0, sn)
}

/// A sender's first `k` KCP datagrams and a receiver that has received nothing
/// of them yet: the datagrams are made of segments of the book, which fits into
/// the receive window.
pub open spec fn well_matched(s: Session, c: Code, raws: Seq<Seq<u8>>, book: Seq<Content>) -> bool {
    &&& kcp_compat::parity_code(c.rows, c.k, c.p)
    &&& 0 < c.k
    &&& c.k + c.p <= 256
    &&& raws.len() == c.k
    &&& forall|i: int|
        0 <= i < raws.len() ==> 0 < (#[trigger] raws[i]).len() <= 65533 && delivery::well_told(
            raws[i],
            0,
            s.kcp.conv,
            s.kcp.mss,
            book,
        )
    &&& s.groups.len() == 0
    &&& delivery::ready(s.kcp, book)
}

/// The groups of a session that has received `got` of the first group.
spec fn gathering(
    t: Session,
    c: Code,
    raws: Seq<Seq<u8>>,
    got: Seq<int>,
    active: u64,
) -> bool {
    t.groups == if got.len() == 0 {
        Seq::empty()
    } else {
        seq![Group { begin: 0, shards: gathered(c, raws, got), active }]
    }
}

/// The state machine of a session that has received `got` of the first group.
spec fn fed_with(
    s: Session,
    t: State,
    c: Code,
    raws: Seq<Seq<u8>>,
    got: Seq<int>,
    book: Seq<Content>,
) -> bool {
    &&& delivery::ready(t, book)
    &&& t.conv == s.kcp.conv
    &&& t.mss == s.kcp.mss
    &&& forall|sn: int| #[trigger]
        delivery::arrived(t, sn) <==> delivery::arrived(s.kcp, sn) || told_by_data(c, raws, got, sn)
}

proof fn lemma_pruned(gs: Seq<Group>, now: u64)
    requires
        gs.len() <= 1,
        gs.len() == 1 ==> shards::is_fresh(gs[0], now),
    ensures
        shards::pruned(gs, now) == gs,
{
    reveal_with_fuel(shards::fresh_groups, 2);
    if gs.len() == 1 {
        assert(shards::fresh_groups(gs.drop_last(), now).push(gs.last()) =~= gs);
    }
}

proof fn lemma_push_contains(got: Seq<int>, i: int)
    ensures
        forall|j: int| #[trigger] got.push(i).contains(j) <==> got.contains(j) || j == i,
{
    let more = got.push(i);
    assert forall|j: int| #[trigger] more.contains(j) <==> got.contains(j) || j == i by {
        if got.contains(j) {
            let k = choose|k: int| 0 <= k < got.len() && got[k] == j;
            assert(more[k] == j);
        }
        if j == i {
            assert(more[got.len() as int] == j);
        }
        if more.contains(j) && j != i {
            let k = choose|k: int| 0 <= k < more.len() && more[k] == j;
            assert(got[k] == j);
        }
    }
}

/// What a packet of the group meets in a session that gathers the group.
proof fn lemma_shard_meets(
    s: Session,
    t: Session,
    c: Code,
    raws: Seq<Seq<u8>>,
    got: Seq<int>,
    active: u64,
    i: int,
    book: Seq<Content>,
)
    requires
        well_matched(s, c, raws, book),
        gathering(t, c, raws, got, active),
        got.len() > 0 ==> t.clock - active <= FEC_GROUP_EXPIRE_MS,
        fed_with(s, t.kcp, c, raws, got, book),
        0 <= i < c.k + c.p,
    ensures
        ({
            let d = packet_of(c, raws, i);
            let more = got.push(i);
            &&& session::is_shard(d)
            &&& session::without_stale(t) == t
            &&& session::group_place(t, c, d) == 0
            &&& session::groups_with(t, c, d) == seq![
                Group { begin: 0, shards: gathered(c, raws, got), active: t.clock },
            ]
            &&& session::completed(t, c, d) == (Group {
                begin: 0,
                shards: gathered(c, raws, more),
                active: t.clock,
            })
            &&& session::shard_fed(t, c, d).1 is None
            &&& fed_with(s, session::shard_fed(t, c, d).0, c, raws, more, book)
        }),
{
    let d = packet_of(c, raws, i);
    let more = got.push(i);
    let kind = if i < c.k {
        TYPE_DATA
    } else {
        TYPE_PARITY
    };
    session_laws::law_shard_framing_roundtrip(i as u32, kind, shard_of(c, raws, i));
    lemma_pruned(t.groups, t.clock);
    let total = (c.k + c.p) as int;
    assert(total % 0x1_0000_0000 == total);
    assert(i % total == i) by (nonlinear_arith)
        requires
            0 <= i < total,
    ;
    assert(session::shard_place(c, i as u32) == i);
    assert(session::group_begin(c, i as u32) == 0);
    let here = Group { begin: 0, shards: gathered(c, raws, got), active: t.clock };
    let gs = session::groups_with(t, c, d);
    reveal_with_fuel(shards::place_of, 2);
    if got.len() == 0 {
        assert(Seq::new(c.k + c.p, |j: int| None::<Seq<u8>>) =~= gathered(c, raws, got));
    }
    assert(gs =~= seq![here]);
    lemma_push_contains(got, i);
    let g = session::completed(t, c, d);
    assert(g.shards =~= gathered(c, raws, more));
    let u = session::shard_fed(t, c, d).0;
    if i < c.k && !got.contains(i) {
        let raw = raws[i];
        session_laws::law_shard_carries_its_packet(raw, raw.len() + 2);
        delivery::law_good_datagrams_are_taken_in(t.kcp, raw, book);
        assert forall|sn: int| #[trigger] delivery::arrived(u, sn) <==> delivery::arrived(
            s.kcp,
            sn,
        ) || told_by_data(c, raws, more, sn) by {
            assert(delivery::arrived(t.kcp, sn) <==> delivery::arrived(s.kcp, sn) || told_by_data(
                c,
                raws,
                got,
                sn,
            ));
            lemma_told_more(c, raws, got, i, sn);
        }
    } else {
        assert(u == t.kcp);
        assert forall|sn: int| #[trigger] delivery::arrived(u, sn) <==> delivery::arrived(
            s.kcp,
            sn,
        ) || told_by_data(c, raws, more, sn) by {
            lemma_told_more(c, raws, got, i, sn);
            if 0 <= i < c.k && delivery::tells(raws[i], 0, sn) {
                assert(told_by_data(c, raws, got, sn));
            }
        }
    }
}

proof fn lemma_told_more(c: Code, raws: Seq<Seq<u8>>, got: Seq<int>, i: int, sn: int)
    ensures
        told_by_data(c, raws, got.push(i), sn) <==> told_by_data(c, raws, got, sn) || (0 <= i < c.k
            && delivery::tells(raws[i], 0, sn)),
{
    lemma_push_contains(got, i);
    let more = got.push(i);
    if told_by_data(c, raws, more, sn) {
        let j = choose|j: int|
            0 <= j < c.k && more.contains(j) && delivery::tells(#[trigger] raws[j], 0, sn);
        if j != i {
            assert(got.contains(j));
        }
    }
    if told_by_data(c, raws, got, sn) {
        let j = choose|j: int|
            0 <= j < c.k && got.contains(j) && delivery::tells(#[trigger] raws[j], 0, sn);
        assert(more.contains(j));
    }
    if 0 <= i < c.k && delivery::tells(raws[i], 0, sn) {
        assert(more.contains(i));
    }
}

proof fn lemma_held_grows(a: Seq<Option<Seq<u8>>>, b: Seq<Option<Seq<u8>>>)
    requires
        a.len() == b.len(),
        forall|i: int| 0 <= i < a.len() && (#[trigger] a[i]) is Some ==> b[i] is Some,
    ensures
        shards::held(a) <= shards::held(b),
    decreases a.len(),
{
    if a.len() > 0 {
        assert forall|i: int|
            0 <= i < a.drop_last().len() && (
            #[trigger] a.drop_last()[i]) is Some implies b.drop_last()[i] is Some by {
            assert(a.drop_last()[i] == a[i]);
        }
        lemma_held_grows(a.drop_last(), b.drop_last());
        assert(a.last() == a[a.len() - 1]);
    }
}

/// The indices, with the last taken off.
proof fn lemma_indices(xs: Seq<Arrival>)
    requires
        xs.len() > 0,
    ensures
        indices(xs) == indices(xs.drop_last()).push(xs.last().index),
{
    assert(indices(xs) =~= indices(xs.drop_last()).push(xs.last().index));
}

proof fn lemma_in_time(xs: Seq<Arrival>, total: int)
    requires
        xs.len() > 0,
        in_time(xs, total),
    ensures
        in_time(xs.drop_last(), total),
        0 <= xs.last().index < total,
        xs.len() > 1 ==> xs.last().clock - xs.drop_last().last().clock <= FEC_GROUP_EXPIRE_MS,
{
    let ys = xs.drop_last();
    let n = xs.len();
    assert(0 <= xs[n - 1].index < total);
    if n > 1 {
        assert(xs[n - 1].clock - xs[n - 2].clock <= FEC_GROUP_EXPIRE_MS);
        assert(ys[n - 2] == xs[n - 2]);
    }
    assert forall|i: int| 0 <= i < ys.len() implies 0 <= (#[trigger] ys[i]).index < total by {
        assert(ys[i] == xs[i]);
    }
    assert forall|i: int, j: int|
        0 <= i < ys.len() && 0 <= j < ys.len() && j == i + 1 implies (#[trigger] ys[j]).clock - (
        #[trigger] ys[i]).clock <= FEC_GROUP_EXPIRE_MS by {
        assert(ys[i] == xs[i] && ys[j] == xs[j]);
    }
}

/// When the group was last touched.
spec fn last_touch(xs: Seq<Arrival>) -> u64 {
    if xs.len() == 0 {
        0
    } else {
        xs.last().clock
    }
}

/// Until `k` different packets of the group have come, the session gathers
/// them; a packet that comes again changes nothing.
proof fn lemma_gathering(
    s: Session,
    c: Code,
    raws: Seq<Seq<u8>>,
    xs: Seq<Arrival>,
    book: Seq<Content>,
)
    requires
        well_matched(s, c, raws, book),
        in_time(xs, (c.k + c.p) as int),
        shards::held(gathered(c, raws, indices(xs))) < c.k,
    ensures
        ({
            let (t, ok) = after_arrivals(s, c, first_packets(c, raws), xs);
            &&& ok
            &&& gathering(t, c, raws, indices(xs), last_touch(xs))
            &&& fed_with(s, t.kcp, c, raws, indices(xs), book)
        }),
    decreases xs.len(),
{
    let ds = first_packets(c, raws);
    let (t, ok) = after_arrivals(s, c, ds, xs);
    if xs.len() == 0 {
        assert(t.groups =~= Seq::empty());
        assert forall|sn: int| #[trigger] delivery::arrived(t.kcp, sn) <==> delivery::arrived(
            s.kcp,
            sn,
        ) || told_by_data(c, raws, indices(xs), sn) by {}
    } else {
        let ys = xs.drop_last();
        let x = xs.last();
        let got = indices(ys);
        let total = (c.k + c.p) as int;
        lemma_in_time(xs, total);
        lemma_indices(xs);
        lemma_push_contains(got, x.index);
        lemma_held_grows(gathered(c, raws, got), gathered(c, raws, indices(xs)));
        lemma_gathering(s, c, raws, ys, book);
        let before = after_arrivals(s, c, ds, ys).0;
        let u = Session { clock: x.clock, ..before };
        lemma_shard_meets(s, u, c, raws, got, last_touch(ys), x.index, book);
        law_first_group(c, raws);
        assert(ds[x.index] == packet_of(c, raws, x.index));
        let here = Group { begin: 0, shards: gathered(c, raws, indices(xs)), active: x.clock };
        assert(session::groups_with(u, c, ds[x.index]).update(0, here) =~= seq![here]);
        assert(t.kcp == session::shard_fed(u, c, ds[x.index]).0);
    }
}

proof fn lemma_recovered_fed(
    t: State,
    c: Code,
    raws: Seq<Seq<u8>>,
    lost: Seq<Option<Seq<u8>>>,
    book: Seq<Content>,
)
    requires
        delivery::ready(t, book),
        lost.len() <= raws.len(),
        forall|i: int|
            0 <= i < raws.len() ==> 0 < (#[trigger] raws[i]).len() && delivery::well_told(
                raws[i],
                0,
                t.conv,
                t.mss,
                book,
            ),
        forall|i: int| 0 <= i < lost.len() && (#[trigger] lost[i]) is Some ==> lost[i]->0 == raws[i],
    ensures
        ({
            let (u, e) = shards::fed_all(t, lost);
            &&& e is None
            &&& delivery::ready(u, book)
            &&& u.conv == t.conv
            &&& u.mss == t.mss
            &&& forall|sn: int| #[trigger]
                delivery::arrived(u, sn) <==> delivery::arrived(t, sn) || told_by_lost(raws, lost, sn)
        }),
    decreases lost.len(),
{
    let u = shards::fed_all(t, lost).0;
    if lost.len() > 0 {
        let head = lost.drop_last();
        let n = lost.len() - 1;
        assert forall|i: int| 0 <= i < head.len() && (#[trigger] head[i]) is Some implies head[i]->0
            == raws[i] by {
            assert(head[i] == lost[i]);
        }
        lemma_recovered_fed(t, c, raws, head, book);
        let v = shards::fed_all(t, head).0;
        assert(lost.last() == lost[n]);
        if lost[n] is Some {
            delivery::law_good_datagrams_are_taken_in(v, raws[n], book);
        }
        assert forall|sn: int| #[trigger] delivery::arrived(u, sn) <==> delivery::arrived(t, sn)
            || told_by_lost(raws, lost, sn) by {
            assert(delivery::arrived(v, sn) <==> delivery::arrived(t, sn) || told_by_lost(
                raws,
                head,
                sn,
            ));
            if told_by_lost(raws, lost, sn) {
                let i = choose|i: int|
                    0 <= i < lost.len() && lost[i] is Some && delivery::tells(
                        #[trigger] raws[i],
                        0,
                        sn,
                    );
                if i < n {
                    assert(head[i] == lost[i]);
                    assert(told_by_lost(raws, head, sn));
                }
            }
            if told_by_lost(raws, head, sn) {
                let i = choose|i: int|
                    0 <= i < head.len() && head[i] is Some && delivery::tells(
                        #[trigger] raws[i],
                        0,
                        sn,
                    );
                assert(lost[i] == head[i]);
                assert(told_by_lost(raws, lost, sn));
            }
            if lost[n] is Some && delivery::tells(raws[n], 0, sn) {
                assert(told_by_lost(raws, lost, sn));
            }
        }
    }
}

/// Whether the data segment `sn` is in a packet that was recovered.
spec fn told_by_lost(raws: Seq<Seq<u8>>, lost: Seq<Option<Seq<u8>>>, sn: int) -> bool {
    exists|i: int|
        0 <= i < lost.len() && lost[i] is Some && delivery::tells(#[trigger] raws[i], 0, sn)
}

/// Whatever `k` packets of the group have come, the data segments of all of its
/// data packets have.
proof fn lemma_group_complete(
    s: Session,
    u: Session,
    c: Code,
    raws: Seq<Seq<u8>>,
    got: Seq<int>,
    i: int,
    active: u64,
    packets: Seq<Option<Seq<u8>>>,
    book: Seq<Content>,
)
    requires
        well_matched(s, c, raws, book),
        gathering(u, c, raws, got, active),
        got.len() > 0 ==> u.clock - active <= FEC_GROUP_EXPIRE_MS,
        fed_with(s, u.kcp, c, raws, got, book),
        0 <= i < c.k + c.p,
        shards::held(gathered(c, raws, got.push(i))) >= c.k,
        can_give(u, c, packet_of(c, raws, i), packets),
    ensures
        ({
            let (t, r) = session::taken_in(u, Some(c), packet_of(c, raws, i), packets);
            &&& r == Ok::<(), SessionError>(())
            &&& t.groups.len() == 0
            &&& delivery::ready(t.kcp, book)
            &&& forall|sn: int| #[trigger]
                delivery::arrived(t.kcp, sn) <==> delivery::arrived(s.kcp, sn) || delivery::told_in(
                    raws,
                    sn,
                )
        }),
{
    let d = packet_of(c, raws, i);
    let more = got.push(i);
    let shards_now = gathered(c, raws, more);
    lemma_shard_meets(s, u, c, raws, got, active, i, book);
    let k1 = session::shard_fed(u, c, d).0;
    let t = session::taken_in(u, Some(c), d, packets).0;
    let need = session::needs_recovery(u, c, d);
    if need {
        assert(session_laws::some_shards_of(c, raws, shards_now)) by {
            assert forall|j: int| 0 <= j < shards_now.len() && (
            #[trigger] shards_now[j]) is Some implies shards_now[j]->0 == shard_of(c, raws, j) by {}
        }
        session_laws::law_lost_packets_are_recovered(c, raws, shards_now, packets);
        assert forall|j: int| 0 <= j < packets.len() && (
        #[trigger] packets[j]) is Some implies packets[j]->0 == raws[j] by {}
        lemma_recovered_fed(k1, c, raws, packets, book);
        assert(t.kcp == shards::fed_all(k1, packets).0);
    } else {
        assert(session::data_complete(shards_now, c.k));
        assert(t.kcp == k1);
    }
    assert forall|sn: int| #[trigger] delivery::arrived(t.kcp, sn) <==> delivery::arrived(s.kcp, sn)
        || delivery::told_in(raws, sn) by {
        assert(delivery::arrived(k1, sn) <==> delivery::arrived(s.kcp, sn) || told_by_data(
            c,
            raws,
            more,
            sn,
        ));
        if told_by_data(c, raws, more, sn) {
            let j = choose|j: int|
                0 <= j < c.k && more.contains(j) && delivery::tells(#[trigger] raws[j], 0, sn);
            assert(delivery::told_in(raws, sn));
        }
        if need && told_by_lost(raws, packets, sn) {
            let j = choose|j: int|
                0 <= j < packets.len() && packets[j] is Some && delivery::tells(
                    #[trigger] raws[j],
                    0,
                    sn,
                );
            assert(delivery::told_in(raws, sn));
        }
        if delivery::told_in(raws, sn) {
            let j = choose|j: int| 0 <= j < raws.len() && delivery::tells(#[trigger] raws[j], 0, sn);
            if more.contains(j) {
                assert(told_by_data(c, raws, more, sn));
            } else {
                assert(shards_now[j] is None);
                assert(need);
                assert(packets[j] is Some);
                assert(told_by_lost(raws, packets, sn));
            }
        }
    }
}

/// Lost packets cost nothing: a session that is given packets of a sender's
/// first group, whichever and in whatever order, some of them perhaps more than
/// once, takes each of them in, and when the `k`-th different one has come it
/// holds the same data as if exactly the `k` data packets had come. The group is
/// then done with.
pub proof fn law_any_k_packets_deliver_the_group(
    s: Session,
    c: Code,
    raws: Seq<Seq<u8>>,
    xs: Seq<Arrival>,
    book: Seq<Content>,
)
    requires
        well_matched(s, c, raws, book),
        in_time(xs, (c.k + c.p) as int),
        can_arrive(s, c, first_packets(c, raws), xs),
        xs.len() > 0,
        shards::held(gathered(c, raws, indices(xs.drop_last()))) < c.k,
        shards::held(gathered(c, raws, indices(xs))) == c.k,
    ensures
        ({
            let (t, ok) = after_arrivals(s, c, first_packets(c, raws), xs);
            &&& ok
            &&& t.groups.len() == 0
            &&& delivery::all_taken_in(s.kcp, raws).1
            &&& delivery::same_data(t.kcp, delivery::all_taken_in(s.kcp, raws).0)
        }),
{
    let ds = first_packets(c, raws);
    let ys = xs.drop_last();
    let x = xs.last();
    let got = indices(ys);
    lemma_in_time(xs, (c.k + c.p) as int);
    lemma_indices(xs);
    lemma_gathering(s, c, raws, ys, book);
    law_first_group(c, raws);
    let before = after_arrivals(s, c, ds, ys).0;
    let u = Session { clock: x.clock, ..before };
    assert(ds[x.index] == packet_of(c, raws, x.index));
    lemma_group_complete(s, u, c, raws, got, x.index, last_touch(ys), x.packets, book);
    let t = after_arrivals(s, c, ds, xs).0;
    delivery::law_all_good_datagrams_are_taken_in(s.kcp, raws, book);
    let all = delivery::all_taken_in(s.kcp, raws).0;
    assert forall|sn: int| #[trigger] delivery::arrived(t.kcp, sn) <==> delivery::arrived(
        all,
        sn,
    ) by {
        assert(delivery::arrived(all, sn) <==> delivery::arrived(s.kcp, sn) || delivery::told_in(
            raws,
            sn,
        ));
    }
    delivery::law_arrival_order_does_not_matter(t.kcp, all, book);
}

/// A packet of the group that comes again before the group is complete changes
/// nothing: it is taken in, and the session is as it was.
pub proof fn law_repeated_packet_changes_nothing(
    s: Session,
    c: Code,
    raws: Seq<Seq<u8>>,
    xs: Seq<Arrival>,
    book: Seq<Content>,
    j: int,
    packets: Seq<Option<Seq<u8>>>,
)
    requires
        well_matched(s, c, raws, book),
        in_time(xs, (c.k + c.p) as int),
        0 <= j < xs.len(),
        shards::held(gathered(c, raws, indices(xs))) < c.k,
    ensures
        ({
            let t = after_arrivals(s, c, first_packets(c, raws), xs).0;
            session::taken_in(
                Session { clock: xs.last().clock, ..t },
                Some(c),
                first_packets(c, raws)[xs[j].index],
                packets,
            ) == (t, Ok::<(), SessionError>(()))
        }),
{
    let ds = first_packets(c, raws);
    let got = indices(xs);
    let i = xs[j].index;
    lemma_gathering(s, c, raws, xs, book);
    law_first_group(c, raws);
    let t = after_arrivals(s, c, ds, xs).0;
    let x = xs.last();
    let ys = xs.drop_last();
    let before = after_arrivals(s, c, ds, ys).0;
    lemma_in_time(xs, (c.k + c.p) as int);
    lemma_indices(xs);
    lemma_push_contains(indices(ys), x.index);
    lemma_held_grows(gathered(c, raws, indices(ys)), gathered(c, raws, got));
    lemma_gathering(s, c, raws, ys, book);
    lemma_shard_meets(
        s,
        Session { clock: x.clock, ..before },
        c,
        raws,
        indices(ys),
        last_touch(ys),
        x.index,
        book,
    );
    assert(ds[x.index] == packet_of(c, raws, x.index));
    assert(t.clock == x.clock);
    lemma_shard_meets(s, t, c, raws, got, x.clock, i, book);
    assert(got[j] == i);
    assert(got.contains(i));
    lemma_push_contains(got, i);
    let d = packet_of(c, raws, i);
    assert(ds[i] == d);
    assert(gathered(c, raws, got.push(i)) =~= gathered(c, raws, got));
    let here = Group { begin: 0, shards: gathered(c, raws, got), active: t.clock };
    assert(seq![here].update(0, here) =~= seq![here]);
    assert(session::shard_fed(t, c, d).0 == t.kcp);
}

/// A session before its first packet can be matched: whatever the book, if it
/// fits into the window, nothing of it has arrived.
pub proof fn law_fresh_sessions_are_ready(conv: u32, config: KcpConfig, book: Seq<Content>)
    requires
        model::valid(session::fresh(conv, config).kcp),
        book.len() <= session::fresh(conv, config).kcp.rcv_wnd,
    ensures
        delivery::ready(session::fresh(conv, config).kcp, book),
        session::fresh(conv, config).groups.len() == 0,
        forall|sn: int| sn >= 0 ==> !(#[trigger] delivery::arrived(
            session::fresh(conv, config).kcp,
            sn,
        )),
{
    let b = session::fresh(conv, config).kcp;
    assert(delivery::contents(b.rcv_queue) =~= book.take(0));
}

} // verus!
