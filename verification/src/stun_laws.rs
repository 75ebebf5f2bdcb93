//! What a STUN server says is what is read: attributes, addresses and whole
//! responses, written out and read back.
use vstd::prelude::*;
use vstd::string::*;

use crate::addr::{IpAddr, SocketAddr};
use crate::bytes;
use crate::stun;
use crate::stun::Attribute;

verus! {

// ── attributes ──────────────────────────────────────────────────────────

/// How many zeros fill a value up to a multiple of four bytes.
pub open spec fn filling(n: nat) -> nat {
    if n % 4 == 0 {
        0
    } else {
        (4 - n % 4) as nat
    }
}

/// An attribute on the wire: its type and the length of its value, two bytes
/// each, highest first, then the value, and zeros up to a multiple of four.
pub open spec fn written_one(a: Attribute) -> Seq<u8> {
    seq![
        (a.kind / 256) as u8,
        (a.kind % 256) as u8,
        (a.value.len() / 256) as u8,
        (a.value.len() % 256) as u8,
    ] + a.value + Seq::new(filling(a.value.len()), |i: int| 0u8)
}

/// Attributes on the wire, one behind the other.
pub open spec fn written(list: Seq<Attribute>) -> Seq<u8>
    decreases list.len(),
{
    if list.len() == 0 {
        Seq::empty()
    } else {
        written_one(list[0]) + written(list.drop_first())
    }
}

/// Whether the values fit what their lengths can state.
pub open spec fn fitting(list: Seq<Attribute>) -> bool {
    forall|i: int| 0 <= i < list.len() ==> (#[trigger] list[i]).value.len() <= 65_535
}

proof fn lemma_written_one(before: Seq<u8>, a: Attribute, behind: Seq<u8>)
    requires
        a.value.len() <= 65_535,
    ensures
        ({
            let d = before + written_one(a) + behind;
            let i = before.len() as int;
            &&& bytes::be16_at(d, i) == a.kind
            &&& bytes::be16_at(d, i + 2) == a.value.len()
            &&& d.subrange(i + 4, i + 4 + a.value.len()) == a.value
            &&& stun::next_at(d, i) == i + written_one(a).len()
            &&& i + 4 + a.value.len() <= i + written_one(a).len() <= d.len()
        }),
{
    let d = before + written_one(a) + behind;
    let i = before.len() as int;
    let w = written_one(a);
    assert(forall|j: int| 0 <= j < w.len() ==> #[trigger] d[i + j] == w[j]);
    assert(d[i + 0] == w[0] && d[i + 1] == w[1] && d[i + 2] == w[2] && d[i + 3] == w[3]);
    assert forall|j: int| 0 <= j < a.value.len() implies #[trigger] d[i + 4 + j] == a.value[j] by {
        assert(d[i + (4 + j)] == w[4 + j]);
    }
    assert(d.subrange(i + 4, i + 4 + a.value.len()) =~= a.value);
}

proof fn lemma_attributes(before: Seq<u8>, list: Seq<Attribute>)
    requires
        fitting(list),
    ensures
        stun::attributes(before + written(list), before.len() as int) == list,
    decreases list.len(),
{
    let d = before + written(list);
    let i = before.len() as int;
    if list.len() > 0 {
        let a = list[0];
        let rest = list.drop_first();
        assert forall|j: int| 0 <= j < rest.len() implies (#[trigger] rest[j]).value.len()
            <= 65_535 by {
            assert(rest[j] == list[j + 1]);
        }
        assert(a.value.len() <= 65_535);
        lemma_written_one(before, a, written(rest));
        assert(d =~= before + written_one(a) + written(rest));
        let next = before + written_one(a);
        lemma_attributes(next, rest);
        assert(d =~= next + written(rest));
        assert(stun::attributes(d, i) == seq![a] + rest);
        assert(seq![a] + rest =~= list);
    }
}

/// Attributes are read as they were written, whatever the lengths of their
/// values.
pub proof fn law_attributes_are_read_back(list: Seq<Attribute>)
    requires
        fitting(list),
    ensures
        stun::attributes(written(list), 0) == list,
{
    lemma_attributes(Seq::empty(), list);
    assert(Seq::<u8>::empty() + written(list) =~= written(list));
}

// ── addresses ───────────────────────────────────────────────────────────

/// The value of an address attribute: a zero, the family, the port, then the
/// address, highest byte first.
pub open spec fn address_value(a: SocketAddr) -> Seq<u8> {
    seq![
        0u8,
        if a.ip is V4 {
            1u8
        } else {
            2u8
        },
        (a.port / 256) as u8,
        (a.port % 256) as u8,
    ] + a.ip.octets()
}

/// An address is read from its value, be it IPv4 or IPv6.
pub proof fn law_addresses_are_read_back(a: SocketAddr)
    ensures
        stun::mapped_address(address_value(a)) == Some(a),
        address_value(a).len() == (if a.ip is V4 {
            8int
        } else {
            20
        }),
{
    let v = address_value(a);
    match a.ip {
        IpAddr::V4(p, q, r, s) => {
            assert(v[4] == p && v[5] == q && v[6] == r && v[7] == s);
        },
        IpAddr::V6(..) => {
            let o = a.ip.octets();
            assert(forall|i: int| 0 <= i < 16 ==> #[trigger] v[i + 4] == o[i]);
            assert(v.skip(4) =~= o);
            lemma_groups(v, a.ip);
        },
    }
}

proof fn lemma_groups(v: Seq<u8>, ip: IpAddr)
    requires
        ip is V6,
        v.len() == 20,
        v.skip(4) == ip.octets(),
    ensures
        ip == IpAddr::V6(
            bytes::be16_at(v, 4),
            bytes::be16_at(v, 6),
            bytes::be16_at(v, 8),
            bytes::be16_at(v, 10),
            bytes::be16_at(v, 12),
            bytes::be16_at(v, 14),
            bytes::be16_at(v, 16),
            bytes::be16_at(v, 18),
        ),
{
    let o = ip.octets();
    assert forall|i: int| 0 <= i < 16 implies v[i + 4] == #[trigger] o[i] by {
        assert(v.skip(4)[i] == o[i]);
    }
    assert(v[4] == o[0] && v[5] == o[1] && v[6] == o[2] && v[7] == o[3]);
    assert(v[8] == o[4] && v[9] == o[5] && v[10] == o[6] && v[11] == o[7]);
    assert(v[12] == o[8] && v[13] == o[9] && v[14] == o[10] && v[15] == o[11]);
    assert(v[16] == o[12] && v[17] == o[13] && v[18] == o[14] && v[19] == o[15]);
}

/// The mask: the family is plain, the port is masked with the first half of the
/// cookie, the address with the cookie and then the transaction.
pub proof fn law_mask_is_cookie_and_transaction(v: Seq<u8>, tx_id: Seq<u8>, i: int)
    requires
        tx_id.len() == 12,
        0 <= i < v.len() <= 20,
    ensures
        ({
            let m = stun::masked(v, stun::mask_key(stun::MAGIC_COOKIE, tx_id));
            &&& m.len() == v.len()
            &&& i < 2 ==> m[i] == v[i]
            &&& i == 2 || i == 4 ==> m[i] == v[i] ^ 0x21
            &&& i == 3 || i == 5 ==> m[i] == v[i] ^ 0x12
            &&& i == 6 ==> m[i] == v[i] ^ 0xa4
            &&& i == 7 ==> m[i] == v[i] ^ 0x42
            &&& i >= 8 ==> m[i] == v[i] ^ tx_id[i - 8]
        }),
{
    let key = stun::mask_key(stun::MAGIC_COOKIE, tx_id);
    assert(key[0] == 0x21 && key[1] == 0x12 && key[2] == 0xa4 && key[3] == 0x42);
    if i >= 8 {
        assert(key[i - 4] == tx_id[i - 8]);
    }
}

// ── requests and responses ──────────────────────────────────────────────

/// A request is the twenty bytes of a header: type 1, no attributes, the
/// cookie, the transaction.
pub proof fn law_request_layout(tx_id: Seq<u8>)
    requires
        tx_id.len() == 12,
    ensures
        stun::binding_request(tx_id) == seq![0u8, 1, 0, 0, 0x21, 0x12, 0xa4, 0x42] + tx_id,
{
    assert(stun::binding_request(tx_id) =~= seq![0u8, 1, 0, 0, 0x21, 0x12, 0xa4, 0x42] + tx_id);
}

/// A response of the given type to a transaction: the header states the length
/// of the attributes behind it.
pub open spec fn response(kind: u16, tx_id: Seq<u8>, list: Seq<Attribute>) -> Seq<u8> {
    seq![
        (kind / 256) as u8,
        (kind % 256) as u8,
        (written(list).len() / 256) as u8,
        (written(list).len() % 256) as u8,
        0x21,
        0x12,
        0xa4,
        0x42,
    ] + tx_id + written(list)
}

/// A response is taken apart into what it was put together from: a success
/// response to the transaction is not refused, and its attributes are those
/// that it was given.
pub proof fn law_responses_are_taken_apart(tx_id: Seq<u8>, list: Seq<Attribute>)
    requires
        tx_id.len() == 12,
        fitting(list),
        written(list).len() <= 65_535,
    ensures
        stun::refusal(response(0x0101, tx_id, list), tx_id) is None,
        stun::readable(response(0x0101, tx_id, list)),
        stun::attributes_of(response(0x0101, tx_id, list)) == list,
        stun::attributes_of(response(0x0111, tx_id, list)) == list,
{
    lemma_response(0x0101, tx_id, list);
    lemma_response(0x0111, tx_id, list);
}

proof fn lemma_response(kind: u16, tx_id: Seq<u8>, list: Seq<Attribute>)
    requires
        tx_id.len() == 12,
        fitting(list),
        written(list).len() <= 65_535,
    ensures
        ({
            let d = response(kind, tx_id, list);
            &&& d.len() == 20 + written(list).len()
            &&& bytes::be16_at(d, 0) == kind
            &&& stun::stated_len(d) == written(list).len()
            &&& bytes::be32_at(d, 4) == 0x2112a442
            &&& d.subrange(8, 20) == tx_id
            &&& stun::attributes_of(d) == list
        }),
{
    let d = response(kind, tx_id, list);
    let w = written(list);
    assert(d.subrange(8, 20) =~= tx_id);
    assert(d[4] == 0x21 && d[5] == 0x12 && d[6] == 0xa4 && d[7] == 0x42);
    assert(d.subrange(20, 20 + w.len() as int) =~= w);
    law_attributes_are_read_back(list);
}

/// A response to another transaction, without the cookie, cut short, or of
/// another type is refused.
pub proof fn law_strange_responses_are_refused(d: Seq<u8>, tx_id: Seq<u8>)
    requires
        d.len() >= 20,
        d.subrange(8, 20) != tx_id || !(d[4] == 0x21 && d[5] == 0x12 && d[6] == 0xa4 && d[7]
            == 0x42) || d.len() < 20 + 256 * d[2] + d[3] || !(d[0] == 1 && d[1] == 1),
    ensures
        stun::refusal(d, tx_id) is Some,
{
    assert(bytes::be16_at(d, 0) == 256 * d[0] + d[1]);
    assert(bytes::be16_at(d, 2) == 256 * d[2] + d[3]);
    assert(bytes::be32_at(d, 4) == 16_777_216 * d[4] + 65_536 * d[5] + 256 * d[6] + d[7]);
}

/// Whether no attribute of the kind stands before index `i`.
pub open spec fn none_before(list: Seq<Attribute>, kind: u16, i: int) -> bool {
    forall|j: int| 0 <= j < i ==> (#[trigger] list[j]).kind != kind
}

proof fn lemma_first_xor(list: Seq<Attribute>, key: Seq<u8>, i: int)
    requires
        0 <= i <= list.len(),
        none_before(list, 0x0020, i),
        i < list.len() ==> list[i].kind == 0x0020 && stun::xor_mapped_address(
            list[i].value,
            key,
        ) is Some,
    ensures
        stun::first_xor(list, key) == (if i < list.len() {
            stun::xor_mapped_address(list[i].value, key)
        } else {
            None
        }),
    decreases i,
{
    if i > 0 {
        let rest = list.drop_first();
        assert(list[0].kind != 0x0020);
        assert forall|j: int| 0 <= j < i - 1 implies (#[trigger] rest[j]).kind != 0x0020 by {
            assert(rest[j] == list[j + 1]);
        }
        lemma_first_xor(rest, key, i - 1);
    }
}

proof fn lemma_first_mapped(list: Seq<Attribute>, i: int)
    requires
        0 <= i < list.len(),
        none_before(list, 0x0001, i),
        list[i].kind == 0x0001,
        stun::mapped_address(list[i].value) is Some,
    ensures
        stun::first_mapped(list) == stun::mapped_address(list[i].value),
    decreases i,
{
    if i > 0 {
        let rest = list.drop_first();
        assert(list[0].kind != 0x0001);
        assert forall|j: int| 0 <= j < i - 1 implies (#[trigger] rest[j]).kind != 0x0001 by {
            assert(rest[j] == list[j + 1]);
        }
        lemma_first_mapped(rest, i - 1);
    }
}

proof fn lemma_last_xor(list: Seq<Attribute>, key: Seq<u8>, i: int, none: Option<SocketAddr>)
    requires
        0 <= i <= list.len(),
        i < list.len() ==> list[i].kind == 0x0020 && stun::xor_mapped_address(
            list[i].value,
            key,
        ) is Some,
        forall|j: int| 0 <= j < list.len() && j != i ==> (#[trigger] list[j]).kind != 0x0020,
    ensures
        stun::last_xor(list, key, none) == (if i < list.len() {
            stun::xor_mapped_address(list[i].value, key)
        } else {
            none
        }),
    decreases list.len(),
{
    if list.len() > 0 {
        let rest = list.drop_first();
        assert forall|j: int| 0 <= j < rest.len() && j != i - 1 implies (#[trigger] rest[j]).kind
            != 0x0020 by {
            assert(rest[j] == list[j + 1]);
        }
        if i > 0 {
            assert(list[0].kind != 0x0020);
            lemma_last_xor(rest, key, i - 1, none);
        } else {
            lemma_last_xor(
                rest,
                key,
                rest.len() as int,
                stun::xor_mapped_address(list[0].value, key),
            );
        }
    }
}

/// A server that masks an address is understood: the address of a response with
/// one masked mapped address is that address, wherever the attribute stands and
/// whatever else stands there, in either reading.
pub proof fn law_masked_address_is_found(
    tx_id: Seq<u8>,
    list: Seq<Attribute>,
    i: int,
    a: SocketAddr,
)
    requires
        tx_id.len() == 12,
        fitting(list),
        written(list).len() <= 65_535,
        0 <= i < list.len(),
        list[i].kind == 0x0020,
        list[i].value == stun::masked(
            address_value(a),
            stun::mask_key(stun::MAGIC_COOKIE, tx_id),
        ),
        forall|j: int| 0 <= j < list.len() && j != i ==> (#[trigger] list[j]).kind != 0x0020,
    ensures
        stun::response_address(response(0x0101, tx_id, list), tx_id) == Some(a),
        stun::full_address(response(0x0101, tx_id, list), tx_id) == Some(a),
{
    let key = stun::mask_key(stun::MAGIC_COOKIE, tx_id);
    lemma_response(0x0101, tx_id, list);
    law_addresses_are_read_back(a);
    stun::law_mask_is_an_involution(address_value(a), key);
    lemma_first_xor(list, key, i);
    lemma_last_xor(list, key, i, None);
}

/// A server that masks nothing is understood too: where there is no masked
/// address, the first plain one is taken, wherever it stands.
pub proof fn law_plain_address_is_found(
    tx_id: Seq<u8>,
    list: Seq<Attribute>,
    i: int,
    a: SocketAddr,
)
    requires
        tx_id.len() == 12,
        fitting(list),
        written(list).len() <= 65_535,
        0 <= i < list.len(),
        list[i].kind == 0x0001,
        list[i].value == address_value(a),
        none_before(list, 0x0001, i),
        none_before(list, 0x0020, list.len() as int),
    ensures
        stun::response_address(response(0x0101, tx_id, list), tx_id) == Some(a),
        stun::full_address(response(0x0101, tx_id, list), tx_id) == Some(a),
{
    let key = stun::mask_key(stun::MAGIC_COOKIE, tx_id);
    lemma_response(0x0101, tx_id, list);
    law_addresses_are_read_back(a);
    lemma_first_xor(list, key, list.len() as int);
    lemma_last_xor(list, key, list.len() as int, None);
    lemma_first_mapped(list, i);
}

/// Without an address attribute there is no address.
pub proof fn law_no_address_is_made_up(tx_id: Seq<u8>, list: Seq<Attribute>)
    requires
        tx_id.len() == 12,
        fitting(list),
        written(list).len() <= 65_535,
        none_before(list, 0x0001, list.len() as int),
        none_before(list, 0x0020, list.len() as int),
    ensures
        stun::response_address(response(0x0101, tx_id, list), tx_id) is None,
        stun::full_address(response(0x0101, tx_id, list), tx_id) is None,
{
    let key = stun::mask_key(stun::MAGIC_COOKIE, tx_id);
    lemma_response(0x0101, tx_id, list);
    lemma_first_xor(list, key, list.len() as int);
    lemma_last_xor(list, key, list.len() as int, None);
    lemma_no_mapped(list);
}

proof fn lemma_no_mapped(list: Seq<Attribute>)
    requires
        none_before(list, 0x0001, list.len() as int),
    ensures
        stun::first_mapped(list) is None,
    decreases list.len(),
{
    if list.len() > 0 {
        let rest = list.drop_first();
        assert(list[0].kind != 0x0001);
        assert forall|j: int| 0 <= j < rest.len() implies (#[trigger] rest[j]).kind != 0x0001 by {
            assert(rest[j] == list[j + 1]);
        }
        lemma_no_mapped(rest);
    }
}

/// The second address of a server is found under either of its types.
pub proof fn law_other_address_is_found(
    tx_id: Seq<u8>,
    list: Seq<Attribute>,
    i: int,
    a: SocketAddr,
)
    requires
        tx_id.len() == 12,
        0 <= i < list.len(),
        list[i].kind == 0x802c || list[i].kind == 0x0005,
        list[i].value == stun::masked(
            address_value(a),
            stun::mask_key(stun::MAGIC_COOKIE, tx_id),
        ),
        forall|j: int|
            i < j < list.len() ==> (#[trigger] list[j]).kind != 0x802c && list[j].kind != 0x0005,
    ensures
        stun::last_other(list, stun::mask_key(stun::MAGIC_COOKIE, tx_id), None) == Some(a),
{
    let key = stun::mask_key(stun::MAGIC_COOKIE, tx_id);
    law_addresses_are_read_back(a);
    stun::law_mask_is_an_involution(address_value(a), key);
    lemma_last_other(list, key, i, None);
}

proof fn lemma_last_other(list: Seq<Attribute>, key: Seq<u8>, i: int, none: Option<SocketAddr>)
    requires
        -1 <= i < list.len(),
        i >= 0 ==> (list[i].kind == 0x802c || list[i].kind == 0x0005) && stun::xor_mapped_address(
            list[i].value,
            key,
        ) is Some,
        forall|j: int|
            i < j < list.len() ==> (#[trigger] list[j]).kind != 0x802c && list[j].kind != 0x0005,
    ensures
        stun::last_other(list, key, none) == (if i >= 0 {
            stun::xor_mapped_address(list[i].value, key)
        } else {
            none
        }),
    decreases list.len(),
{
    if list.len() > 0 {
        let rest = list.drop_first();
        let k = if i < 0 {
            -1
        } else {
            i - 1
        };
        assert forall|j: int| k < j < rest.len() implies (#[trigger] rest[j]).kind != 0x802c
            && rest[j].kind != 0x0005 by {
            assert(rest[j] == list[j + 1]);
        }
        let found = stun::xor_mapped_address(list[0].value, key);
        let next = if (list[0].kind == 0x802c || list[0].kind == 0x0005) && found is Some {
            found
        } else {
            none
        };
        lemma_last_other(rest, key, k, next);
    }
}

/// An error is told by its number: a class and two digits, with the reason.
pub proof fn law_errors_are_told(class: u8, number: u8, reserved: u8, reason: Seq<u8>)
    requires
        class < 8,
        reserved < 32,
    ensures
        stun::error_text(seq![0u8, 0, (8 * reserved + class) as u8, number] + reason)
            == stun::said_of_error((100 * class + number) as nat, stun::text_of(reason)),
{
    let v = seq![0u8, 0, (8 * reserved + class) as u8, number] + reason;
    assert(v.skip(4) =~= reason);
    assert((8 * reserved + class) % 8 == class);
}

/// The scheme before a server is taken off, once.
pub proof fn law_scheme_is_taken_off(s: Seq<char>)
    ensures
        stun::server_of("stun:"@ + s) == s,
        !("stun:"@.is_prefix_of(s)) ==> stun::server_of(s) == s,
{
    reveal_strlit("stun:");
    let t = "stun:"@ + s;
    assert(t.take(5) =~= "stun:"@);
    assert(t.skip(5) =~= s);
    if s.len() >= 5 && s.take(5) == "stun:"@ {
        assert("stun:"@.is_prefix_of(s));
    }
}

/// Trimming takes white space off both ends and nothing else.
pub proof fn law_trimming_takes_white_space(s: Seq<char>)
    ensures
        ({
            let t = stun::trimmed_end(stun::trimmed_start(s));
            &&& t.len() > 0 ==> !stun::is_white_space(t[0]) && !stun::is_white_space(t.last())
            &&& exists|lo: int, hi: int|
                #![trigger s.subrange(lo, hi)]
                {
                    &&& 0 <= lo <= hi <= s.len()
                    &&& s.subrange(lo, hi) == t
                    &&& forall|i: int|
                        (0 <= i < lo || hi <= i < s.len()) ==> stun::is_white_space(#[trigger] s[i])
                }
        }),
{
    let lo = lemma_start(s);
    let m = stun::trimmed_start(s);
    let n = lemma_end(m);
    let t = stun::trimmed_end(m);
    assert(m == s.skip(lo));
    assert(t == m.take(n));
    assert(s.subrange(lo, lo + n) =~= t);
    assert forall|i: int| (0 <= i < lo || lo + n <= i < s.len()) implies stun::is_white_space(
        #[trigger] s[i],
    ) by {
        if i >= lo + n {
            assert(m[i - lo] == s[i]);
        }
    }
    if t.len() > 0 {
        assert(t[0] == m[0]);
    }
}

proof fn lemma_start(s: Seq<char>) -> (lo: int)
    ensures
        0 <= lo <= s.len(),
        stun::trimmed_start(s) == s.skip(lo),
        forall|i: int| 0 <= i < lo ==> stun::is_white_space(#[trigger] s[i]),
        lo < s.len() ==> !stun::is_white_space(s[lo]),
    decreases s.len(),
{
    if s.len() > 0 && stun::is_white_space(s[0]) {
        let rest = s.drop_first();
        let k = lemma_start(rest);
        assert(rest.skip(k) =~= s.skip(k + 1));
        assert forall|i: int| 0 <= i < k + 1 implies stun::is_white_space(#[trigger] s[i]) by {
            if i > 0 {
                assert(rest[i - 1] == s[i]);
            }
        }
        if k < rest.len() {
            assert(rest[k] == s[k + 1]);
        }
        k + 1
    } else {
        assert(s.skip(0) =~= s);
        0
    }
}

proof fn lemma_end(s: Seq<char>) -> (n: int)
    ensures
        0 <= n <= s.len(),
        stun::trimmed_end(s) == s.take(n),
        forall|i: int| n <= i < s.len() ==> stun::is_white_space(#[trigger] s[i]),
        n > 0 ==> !stun::is_white_space(s[n - 1]),
    decreases s.len(),
{
    if s.len() > 0 && stun::is_white_space(s.last()) {
        let rest = s.drop_last();
        let k = lemma_end(rest);
        assert(rest.take(k) =~= s.take(k));
        assert forall|i: int| k <= i < s.len() implies stun::is_white_space(#[trigger] s[i]) by {
            if i < rest.len() {
                assert(rest[i] == s[i]);
            }
        }
        k
    } else {
        assert(s.take(s.len() as int) =~= s);
        s.len() as int
    }
}

} // verus!
