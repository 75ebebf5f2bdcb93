//! The driver's event loop, one event at a time: a tick over all sessions, a
//! datagram for one of them, a new peer, and what the listener made of it.
use vstd::prelude::*;

use super::session;
use super::session::{Channel, KcpSession, ReadChannel, Session};
use super::socket;
use super::socket::{Admission, KcpSocket, Outgoing, SessionKey, Table};
use super::stream::Handed;
use crate::kcp_compat::matrix;

verus! {

/// What a session meets outside: the way to its stream, and the time since it
/// was opened, in milliseconds.
pub struct Port {
    pub channel: ReadChannel,
    pub clock_ms: u64,
}

/// What a tick gives out.
pub struct Tick {
    /// What each session has to send, in the order of the sessions.
    pub outgoing: Vec<Outgoing>,
    /// The sessions that went: they could not hand over, or their link is dead.
    pub gone: Vec<SessionKey>,
    /// The sessions that went because nobody accepted them in time.
    pub expired: Vec<SessionKey>,
}

/// What a tick makes of one session.
#[verifier::ext_equal]
pub struct Ticked {
    pub session: Session,
    pub channel: Channel,
    pub packets: Seq<Seq<u8>>,
    pub stays: bool,
}

/// What a tick makes of one session.
pub open spec fn tick_of(s: KcpSession, ch: Channel, clock: u64, now: u32) -> Ticked {
    let (t, packets) = session::ticked(Session { clock, ..s@ }, s.code(), now);
    let (u, to, e) = session::handed_over(t, ch);
    Ticked { session: u, channel: to, packets, stays: e is Ok && !u.kcp.dead }
}

/// What a tick makes of the `i`-th session.
pub open spec fn tick_at(
    t: Table,
    order: Seq<SessionKey>,
    ports: Seq<Port>,
    now: u32,
    i: int,
) -> Ticked {
    tick_of(t.sessions[order[i]], ports[i].channel@, ports[i].clock_ms, now)
}

/// Whether `mid` is `t` with every session driven, and nothing else changed.
pub open spec fn all_driven(
    t: Table,
    order: Seq<SessionKey>,
    ports: Seq<Port>,
    now: u32,
    mid: Table,
) -> bool {
    &&& mid == (Table { sessions: mid.sessions, ..t })
    &&& mid.sessions.dom() == t.sessions.dom()
    &&& forall|i: int|
        0 <= i < order.len() ==> {
            let s = mid.sessions[#[trigger] order[i]];
            &&& s@ == tick_at(t, order, ports, now, i).session
            &&& s.same_setup(&t.sessions[order[i]])
        }
}

/// Whether `gone` are the sessions that do not stay.
pub open spec fn are_leaving(
    t: Table,
    order: Seq<SessionKey>,
    ports: Seq<Port>,
    now: u32,
    gone: Seq<SessionKey>,
) -> bool {
    &&& gone.no_duplicates()
    &&& forall|k: SessionKey| #[trigger] gone.contains(k) ==> order.contains(k)
    &&& forall|i: int|
        0 <= i < order.len() ==> (gone.contains(#[trigger] order[i]) <==> !tick_at(
            t,
            order,
            ports,
            now,
            i,
        ).stays)
}

/// Whether `expired` are the sessions that nobody accepted in time.
pub open spec fn are_expired(t: Table, now: u32, expired: Seq<SessionKey>) -> bool {
    &&& expired.no_duplicates()
    &&& forall|k: SessionKey| #[trigger] expired.contains(k) <==> socket::is_expired(t, k, now)
}

/// The tables at the end of a tick: the leaving sessions are removed, then the
/// expired ones, then the logs are trimmed.
pub open spec fn tidied(
    mid: Table,
    gone: Seq<SessionKey>,
    expired: Seq<SessionKey>,
    now: u32,
) -> Table {
    let t = socket::all_removed(socket::all_removed(mid, gone), expired);
    Table { logs: socket::logs_trimmed(t.logs, now), ..t }
}

/// What came of a new peer's first packet.
pub enum Met {
    /// It was not let in.
    Refused(Admission),
    /// The packet is garbage.
    Garbage,
    /// A session, to be offered to the listener.
    Offer(KcpSession),
}

impl KcpSocket {
    /// A tick: every session is driven, those that leave or expire are removed,
    /// and the logs are trimmed. `ports` belong to the sessions in their order.
    pub fn tick(&mut self, ports: &mut Vec<Port>, now_ms: u32) -> (r: Tick)
        requires
            old(self).wf(),
            old(ports)@.len() == old(self).key_order().len(),
        ensures
            final(self).wf(),
            final(self).settings() == old(self).settings(),
            final(ports)@.len() == old(ports)@.len(),
            r.outgoing@.len() == old(ports)@.len(),
            forall|i: int|
                #![trigger final(ports)@[i]]
                #![trigger r.outgoing@[i]]
                0 <= i < old(ports)@.len() ==> {
                    let key = old(self).key_order()[i];
                    let t = tick_at(old(self)@, old(self).key_order(), old(ports)@, now_ms, i);
                    &&& final(ports)@[i].channel@ == t.channel
                    &&& r.outgoing@[i].peer == key.peer
                    &&& matrix::rows(r.outgoing@[i].packets@) == t.packets
                },
            are_leaving(old(self)@, old(self).key_order(), old(ports)@, now_ms, r.gone@),
            exists|mid: Table|
                {
                    &&& #[trigger] all_driven(
                        old(self)@,
                        old(self).key_order(),
                        old(ports)@,
                        now_ms,
                        mid,
                    )
                    &&& are_expired(socket::all_removed(mid, r.gone@), now_ms, r.expired@)
                    &&& final(self)@ == tidied(mid, r.gone@, r.expired@, now_ms)
                },
    {
        let ghost t0 = self@;
        let ghost order = self.key_order();
        let ghost ports0 = ports@;
        let mut outgoing: Vec<Outgoing> = Vec::new();
        let mut gone: Vec<SessionKey> = Vec::new();
        let n = ports.len();
        let mut i: usize = 0;
        proof {
            self.lemma_key_order();
        }
        while i < n
            invariant
                self.wf(),
                self.settings() == old(self).settings(),
                self.key_order() == order,
                n == order.len(),
                n == ports@.len(),
                n == ports0.len(),
                n == t0.sessions.dom().len(),
                i <= n,
                order.no_duplicates(),
                forall|k: SessionKey| #[trigger]
                    t0.sessions.contains_key(k) <==> order.contains(k),
                self@ == (Table { sessions: self@.sessions, ..t0 }),
                self@.sessions.dom() == t0.sessions.dom(),
                forall|j: int| i <= j < n ==> self@.sessions[#[trigger] order[j]]
                    == t0.sessions[order[j]],
                forall|j: int| i <= j < n ==> #[trigger] ports@[j] == ports0[j],
                forall|j: int|
                    0 <= j < i ==> {
                        let s = self@.sessions[#[trigger] order[j]];
                        &&& s@ == tick_at(t0, order, ports0, now_ms, j).session
                        &&& s.same_setup(&t0.sessions[order[j]])
                    },
                outgoing@.len() == i,
                forall|j: int|
                    #![trigger ports@[j]]
                    #![trigger outgoing@[j]]
                    0 <= j < i ==> {
                        let t = tick_at(t0, order, ports0, now_ms, j);
                        &&& ports@[j].channel@ == t.channel
                        &&& outgoing@[j].peer == order[j].peer
                        &&& matrix::rows(outgoing@[j].packets@) == t.packets
                    },
                gone@.no_duplicates(),
                forall|k: SessionKey| #[trigger]
                    gone@.contains(k) ==> exists|j: int| 0 <= j < i && #[trigger] order[j] == k,
                forall|j: int|
                    0 <= j < i ==> (gone@.contains(#[trigger] order[j]) <==> !tick_at(
                        t0,
                        order,
                        ports0,
                        now_ms,
                        j,
                    ).stays),
            decreases n - i,
        {
            let key = self.key_at(i);
            let ghost before = self@;
            let ghost gone0 = gone@;
            let s = self.session_mut(key);
            s.set_fec_clock_ms(ports[i].clock_ms);
            let port = &mut ports[i];
            let (packets, stays) = socket::tick_session(s, now_ms, &mut port.channel);
            outgoing.push(Outgoing { peer: key.peer, packets });
            if !stays {
                proof {
                    if gone0.contains(key) {
                        let j = choose|j: int| 0 <= j < i && #[trigger] order[j] == key;
                        assert(order[j] != order[i as int]);
                    }
                }
                gone.push(key);
                assert(gone@.contains(key)) by {
                    assert(gone@[gone0.len() as int] == key);
                }
                assert forall|k: SessionKey| #[trigger] gone@.contains(k) implies k == key
                    || gone0.contains(k) by {
                    let j = choose|j: int| 0 <= j < gone@.len() && gone@[j] == k;
                    if j < gone0.len() {
                        assert(gone0[j] == k);
                    }
                }
                assert forall|k: SessionKey| #[trigger] gone0.contains(k) implies gone@.contains(
                    k,
                ) by {
                    let j = choose|j: int| 0 <= j < gone0.len() && gone0[j] == k;
                    assert(gone@[j] == k);
                }
            }
            proof {
                assert(before.sessions.contains_key(key));
                assert(self@.sessions.dom() =~= t0.sessions.dom());
                assert forall|j: int| 0 <= j < n && j != i implies self@.sessions[#[trigger] order[j]]
                    == before.sessions[order[j]] by {
                    assert(order[j] != order[i as int]);
                }
                assert forall|k: SessionKey| #[trigger] gone@.contains(k) implies exists|j: int|
                    0 <= j < i + 1 && #[trigger] order[j] == k by {
                    if k == key {
                        assert(order[i as int] == k);
                    } else {
                        assert(gone0.contains(k));
                        let j = choose|j: int| 0 <= j < i && #[trigger] order[j] == k;
                        assert(order[j] == k);
                    }
                }
                assert forall|j: int| 0 <= j < i + 1 implies (gone@.contains(#[trigger] order[j])
                    <==> !tick_at(t0, order, ports0, now_ms, j).stays) by {
                    if j < i {
                        assert(order[j] != key);
                    } else if gone0.contains(key) {
                        let q = choose|q: int| 0 <= q < i && #[trigger] order[q] == key;
                        assert(order[q] != order[i as int]);
                    }
                }
            }
            i += 1;
        }
        let ghost mid = self@;
        assert(all_driven(t0, order, ports0, now_ms, mid));
        assert(are_leaving(t0, order, ports0, now_ms, gone@));
        self.remove_all(&gone);
        let expired = self.expire(now_ms);
        self.trim_logs(now_ms);
        Tick { outgoing, gone, expired }
    }

    /// A datagram for a session; whether the session stays. One that cannot hand
    /// over what it received is removed.
    pub fn deliver(&mut self, key: SessionKey, data: &[u8], port: &mut Port) -> (r: bool)
        requires
            old(self).wf(),
            old(self)@.sessions.contains_key(key),
        ensures
            final(self).wf(),
            final(self).settings() == old(self).settings(),
            exists|t: KcpSession|
                {
                    let s = old(self)@.sessions[key];
                    let driven = Table {
                        sessions: old(self)@.sessions.insert(key, t),
                        ..old(self)@
                    };
                    &&& #[trigger] t.same_setup(&old(self)@.sessions[key])
                    &&& socket::delivered(
                        Session { clock: old(port).clock_ms, ..s@ },
                        s.code(),
                        old(port).channel@,
                        data@,
                        t@,
                        final(port).channel@,
                        r,
                    )
                    &&& final(self)@ == (if r {
                        driven
                    } else {
                        socket::removed(driven, key)
                    })
                },
    {
        let ghost t0 = self@;
        let s = self.session_mut(key);
        s.set_fec_clock_ms(port.clock_ms);
        let r = socket::deliver_to(s, data, &mut port.channel);
        let ghost t = self@.sessions[key];
        assert(t.same_setup(&t0.sessions[key]));
        assert(self@ =~= (Table { sessions: t0.sessions.insert(key, t), ..t0 }));
        if !r {
            let _ = self.remove_session(key);
        }
        r
    }

    /// A new peer's first packet: it is judged, and where it is let in its
    /// session is made. Nothing is entered yet.
    pub fn meet(&mut self, key: SessionKey, data: &[u8], now_ms: u32) -> (r: Met)
        requires
            old(self).wf(),
        ensures
            final(self).wf(),
            final(self).settings() == old(self).settings(),
            final(self)@ == socket::judged(old(self)@, key, data@.len(), now_ms).0,
            (match r {
                Met::Refused(a) => a != Admission::Admitted && socket::judged(
                    old(self)@,
                    key,
                    data@.len(),
                    now_ms,
                ).1 == a,
                Met::Garbage => {
                    &&& socket::judged(old(self)@, key, data@.len(), now_ms).1
                        == Admission::Admitted
                    &&& socket::opened(old(self).settings(), key, data@, None)
                },
                Met::Offer(s) => {
                    &&& socket::judged(old(self)@, key, data@.len(), now_ms).1
                        == Admission::Admitted
                    &&& socket::opened(old(self).settings(), key, data@, Some(s))
                    &&& s.wf()
                    &&& socket::has_room(final(self)@, key)
                },
            }),
    {
        let verdict = self.judge(key, data.len(), now_ms);
        if verdict != Admission::Admitted {
            return Met::Refused(verdict);
        }
        match self.open_session(key, data) {
            Some(s) => Met::Offer(s),
            None => Met::Garbage,
        }
    }

    /// A new session was offered to the listener. Where its queue is full the
    /// session is not entered, and nothing is charged for it: sessions, indices,
    /// counts and logs are as they were.
    pub fn offered(&mut self, key: SessionKey, s: KcpSession, answer: Handed, now_ms: u32)
        requires
            old(self).wf(),
            s.wf(),
            socket::has_room(old(self)@, key),
        ensures
            final(self).wf(),
            final(self).settings() == old(self).settings(),
            final(self)@ == (if answer == Handed::Full {
                old(self)@
            } else {
                socket::admitted(old(self)@, key, s, now_ms)
            }),
    {
        match answer {
            Handed::Full => {},
            _ => self.admit_session(key, s, now_ms),
        }
    }
}

} // verus!
