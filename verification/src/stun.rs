//! Minimal STUN (RFC 5389) client for NAT traversal: Binding Request and
//! Response, XOR-MAPPED-ADDRESS, and OTHER-ADDRESS parsing. Sending and
//! receiving stay outside.
use vstd::prelude::*;
use vstd::string::*;

use crate::addr::{IpAddr, SocketAddr};
use crate::bytes;
use crate::text;

verus! {

/// RFC 5389 magic cookie.
pub const MAGIC_COOKIE: u32 = 0x2112A442;

pub const ATTR_MAPPED_ADDRESS: u16 = 0x0001;

pub const ATTR_CHANGED_ADDRESS: u16 = 0x0005;

pub const ATTR_ERROR_CODE: u16 = 0x0009;

pub const ATTR_XOR_MAPPED_ADDRESS: u16 = 0x0020;

/// OTHER-ADDRESS (RFC 5780): a second server address, for dual-server NAT
/// probing.
pub const ATTR_OTHER_ADDRESS: u16 = 0x802c;

const BINDING_SUCCESS: u16 = 0x0101;

const BINDING_ERROR: u16 = 0x0111;

/// Result of a STUN Binding Response.
#[derive(Debug)]
pub struct StunResult {
    /// The primary mapped (external) address from XOR-MAPPED-ADDRESS or
    /// MAPPED-ADDRESS attribute.
    pub mapped_addr: String,
    /// The OTHER-ADDRESS attribute (RFC 5780), if present.
    pub other_addr: Option<String>,
}

/// A Binding Request and the transaction that it opens.
pub struct BindingRequest {
    pub tx_id: [u8; 12],
    pub packet: Vec<u8>,
}

// ── what outside functions give ─────────────────────────────────────────

/// The text that `String::from_utf8_lossy` of std makes of bytes.
pub uninterp spec fn utf8_lossy(b: Seq<u8>) -> Seq<char>;

/// `String::from_utf8_lossy` of std: text that depends on the bytes alone.
/// Bytes that are valid UTF-8 are decoded; what stands for bytes that are not
/// is left unsaid.
#[verifier::external_body]
fn lossy_text(b: &[u8]) -> (r: String)
    ensures
        r@ == utf8_lossy(b@),
        vstd::utf8::valid_utf8(b@) ==> r@ == vstd::utf8::decode_utf8(b@),
{
    String::from_utf8_lossy(b).into_owned()
}

/// `char::is_whitespace` of std: the Unicode property White_Space.
pub assume_specification[ char::is_whitespace ](c: char) -> (r: bool)
    ensures
        r == is_white_space(c),
;

/// `Rng::fill` of the rand crate on the thread's generator: twelve bytes, drawn
/// anew by each call. Nothing is claimed of them.
#[verifier::external_body]
fn random_tx_id() -> (r: [u8; 12]) {
    let mut tx_id = [0u8; 12];
    rand::Rng::fill(&mut rand::thread_rng(), &mut tx_id);
    tx_id
}

// ── requests ────────────────────────────────────────────────────────────

/// A Binding Request without attributes.
pub open spec fn binding_request(tx_id: Seq<u8>) -> Seq<u8> {
    bytes::be16(0x0001) + bytes::be16(0) + bytes::be32(MAGIC_COOKIE) + tx_id
}

/// The Binding Request of a transaction.
pub fn build_binding_request(tx_id: &[u8; 12]) -> (r: Vec<u8>)
    ensures
        r@ == binding_request(tx_id@),
{
    let mut pkt: Vec<u8> = Vec::new();
    bytes::push_be16(&mut pkt, 0x0001);
    bytes::push_be16(&mut pkt, 0);
    bytes::push_be32(&mut pkt, MAGIC_COOKIE);
    bytes::extend(&mut pkt, tx_id.as_slice());
    assert(pkt@ =~= binding_request(tx_id@));
    pkt
}

/// A Binding Request of a new transaction.
pub fn new_binding_request() -> (r: BindingRequest)
    ensures
        r.packet@ == binding_request(r.tx_id@),
{
    let tx_id = random_tx_id();
    let packet = build_binding_request(&tx_id);
    BindingRequest { tx_id, packet }
}

/// The server in `stun:host:port` or `host:port`.
pub open spec fn server_of(s: Seq<char>) -> Seq<char> {
    if s.len() >= 5 && s.take(5) == "stun:"@ {
        s.skip(5)
    } else {
        s
    }
}

/// The server in `stun:host:port` or `host:port`.
pub fn strip_stun_prefix(stun_addr: &str) -> (r: String)
    ensures
        r@ == server_of(stun_addr@),
{
    let c = text::chars_of(stun_addr);
    proof {
        reveal_strlit("stun:");
    }
    if c.len() >= 5 && c[0] == 's' && c[1] == 't' && c[2] == 'u' && c[3] == 'n' && c[4] == ':' {
        assert(c@.take(5) =~= "stun:"@);
        let rest = &c.as_slice()[5..c.len()];
        assert(rest@ =~= c@.skip(5));
        text::string_of(rest)
    } else {
        assert(c@.len() >= 5 ==> c@.take(5) != "stun:"@) by {
            if c@.len() >= 5 && c@.take(5) == "stun:"@ {
                let t = c@.take(5);
                assert(t[0] == c@[0] && t[1] == c@[1] && t[2] == c@[2] && t[3] == c@[3] && t[4]
                    == c@[4]);
            }
        }
        text::string_of(c.as_slice())
    }
}

// ── responses as mathematics ────────────────────────────────────────────

/// An attribute: its type and its value.
pub struct Attribute {
    pub kind: u16,
    pub value: Seq<u8>,
}

/// Where the value of the attribute at `i` ends.
pub open spec fn value_end(a: Seq<u8>, i: int) -> int {
    i + 4 + bytes::be16_at(a, i + 2)
}

/// Where the attribute behind the one at `i` starts: values are padded to
/// multiples of four bytes.
pub open spec fn next_at(a: Seq<u8>, i: int) -> int {
    value_end(a, i) + (4 - bytes::be16_at(a, i + 2) as int % 4) % 4
}

/// The attributes from `i` on, up to one that does not fit.
pub open spec fn attributes(a: Seq<u8>, i: int) -> Seq<Attribute>
    decreases a.len() + 4 - i,
{
    if i < 0 || i + 4 > a.len() || value_end(a, i) > a.len() {
        Seq::empty()
    } else {
        seq![
            Attribute {
                kind: bytes::be16_at(a, i),
                value: a.subrange(i + 4, value_end(a, i)),
            },
        ] + attributes(a, next_at(a, i))
    }
}

/// The address in a MAPPED-ADDRESS value: family, port, then 4 or 16 octets.
pub open spec fn mapped_address(v: Seq<u8>) -> Option<SocketAddr> {
    if v.len() >= 8 && v[1] == 1 {
        Some(
            SocketAddr { ip: IpAddr::V4(v[4], v[5], v[6], v[7]), port: bytes::be16_at(v, 2) },
        )
    } else if v.len() >= 20 && v[1] == 2 {
        Some(
            SocketAddr {
                ip: IpAddr::V6(
                    bytes::be16_at(v, 4),
                    bytes::be16_at(v, 6),
                    bytes::be16_at(v, 8),
                    bytes::be16_at(v, 10),
                    bytes::be16_at(v, 12),
                    bytes::be16_at(v, 14),
                    bytes::be16_at(v, 16),
                    bytes::be16_at(v, 18),
                ),
                port: bytes::be16_at(v, 2),
            },
        )
    } else {
        None
    }
}

/// The key that an address is masked with: the cookie, then the transaction.
pub open spec fn mask_key(cookie: u32, tx_id: Seq<u8>) -> Seq<u8> {
    bytes::be32(cookie) + tx_id
}

/// An address value with its mask taken off, or put on: the port is masked with
/// the first two bytes of the key, the octets with the key from its start.
pub open spec fn masked(v: Seq<u8>, key: Seq<u8>) -> Seq<u8> {
    Seq::new(
        v.len(),
        |i: int|
            if 2 <= i < 4 {
                v[i] ^ key[i - 2]
            } else if 4 <= i < 20 {
                v[i] ^ key[i - 4]
            } else {
                v[i]
            },
    )
}

/// The address in an XOR-MAPPED-ADDRESS value.
pub open spec fn xor_mapped_address(v: Seq<u8>, key: Seq<u8>) -> Option<SocketAddr> {
    mapped_address(masked(v, key))
}

/// Masking twice with one key changes nothing, so what a server masks is read
/// back.
pub proof fn law_mask_is_an_involution(v: Seq<u8>, key: Seq<u8>)
    ensures
        masked(masked(v, key), key) == v,
        xor_mapped_address(masked(v, key), key) == mapped_address(v),
{
    let w = masked(masked(v, key), key);
    assert forall|i: int| 0 <= i < v.len() implies w[i] == v[i] by {
        let x = v[i];
        let y = if i < 4 {
            key[i - 2]
        } else {
            key[i - 4]
        };
        assert((x ^ y) ^ y == x) by (bit_vector);
    }
    assert(w =~= v);
}

/// The first address among attributes of a kind, masked with `key`.
pub open spec fn first_xor(list: Seq<Attribute>, key: Seq<u8>) -> Option<SocketAddr>
    decreases list.len(),
{
    if list.len() == 0 {
        None
    } else if list[0].kind == ATTR_XOR_MAPPED_ADDRESS && xor_mapped_address(
        list[0].value,
        key,
    ) is Some {
        xor_mapped_address(list[0].value, key)
    } else {
        first_xor(list.drop_first(), key)
    }
}

/// The first plain mapped address.
pub open spec fn first_mapped(list: Seq<Attribute>) -> Option<SocketAddr>
    decreases list.len(),
{
    if list.len() == 0 {
        None
    } else if list[0].kind == ATTR_MAPPED_ADDRESS && mapped_address(list[0].value) is Some {
        mapped_address(list[0].value)
    } else {
        first_mapped(list.drop_first())
    }
}

/// The last masked mapped address; `none` where there is none.
pub open spec fn last_xor(list: Seq<Attribute>, key: Seq<u8>, none: Option<SocketAddr>) -> Option<
    SocketAddr,
>
    decreases list.len(),
{
    if list.len() == 0 {
        none
    } else if list[0].kind == ATTR_XOR_MAPPED_ADDRESS && xor_mapped_address(
        list[0].value,
        key,
    ) is Some {
        last_xor(list.drop_first(), key, xor_mapped_address(list[0].value, key))
    } else {
        last_xor(list.drop_first(), key, none)
    }
}

/// The last other address, which is masked too; `none` where there is none.
pub open spec fn last_other(list: Seq<Attribute>, key: Seq<u8>, none: Option<SocketAddr>) -> Option<
    SocketAddr,
>
    decreases list.len(),
{
    if list.len() == 0 {
        none
    } else if (list[0].kind == ATTR_OTHER_ADDRESS || list[0].kind == ATTR_CHANGED_ADDRESS)
        && xor_mapped_address(list[0].value, key) is Some {
        last_other(list.drop_first(), key, xor_mapped_address(list[0].value, key))
    } else {
        last_other(list.drop_first(), key, none)
    }
}

/// The first error code with its reason.
pub open spec fn first_error(list: Seq<Attribute>) -> Option<Seq<u8>>
    decreases list.len(),
{
    if list.len() == 0 {
        None
    } else if list[0].kind == ATTR_ERROR_CODE && list[0].value.len() >= 4 {
        Some(list[0].value)
    } else {
        first_error(list.drop_first())
    }
}

/// Whether a character has the Unicode property White_Space.
pub open spec fn is_white_space(c: char) -> bool {
    let n = c as u32;
    ||| 0x9 <= n <= 0xD
    ||| n == 0x20
    ||| n == 0x85
    ||| n == 0xA0
    ||| n == 0x1680
    ||| 0x2000 <= n <= 0x200A
    ||| n == 0x2028
    ||| n == 0x2029
    ||| n == 0x202F
    ||| n == 0x205F
    ||| n == 0x3000
}

/// The text of bytes: decoded where they are valid UTF-8.
pub open spec fn text_of(b: Seq<u8>) -> Seq<char> {
    if vstd::utf8::valid_utf8(b) {
        vstd::utf8::decode_utf8(b)
    } else {
        utf8_lossy(b)
    }
}

/// A text without the white space that it starts with.
pub open spec fn trimmed_start(s: Seq<char>) -> Seq<char>
    decreases s.len(),
{
    if s.len() > 0 && is_white_space(s[0]) {
        trimmed_start(s.drop_first())
    } else {
        s
    }
}

/// A text without the white space that it ends with.
pub open spec fn trimmed_end(s: Seq<char>) -> Seq<char>
    decreases s.len(),
{
    if s.len() > 0 && is_white_space(s.last()) {
        trimmed_end(s.drop_last())
    } else {
        s
    }
}

/// What is said of an error: its code, a space, and the reason phrase without
/// the white space around it.
pub open spec fn said_of_error(code: nat, reason: Seq<char>) -> Seq<char> {
    "STUN error response: "@ + text::decimal(code) + seq![' '] + trimmed_end(trimmed_start(reason))
}

/// What is said of an ERROR-CODE value: the class (hundreds) and the number of
/// the code, then the reason phrase.
pub open spec fn error_text(v: Seq<u8>) -> Seq<char> {
    said_of_error(((v[2] % 8) * 100 + v[3]) as nat, text_of(v.skip(4)))
}

/// The length that a message states of its attributes.
pub open spec fn stated_len(d: Seq<u8>) -> int {
    bytes::be16_at(d, 2) as int
}

/// The attributes of a message.
pub open spec fn attributes_of(d: Seq<u8>) -> Seq<Attribute> {
    attributes(d.subrange(20, 20 + stated_len(d)), 0)
}

/// What is said of a Binding Error Response.
pub open spec fn error_response(d: Seq<u8>, tx_id: Seq<u8>) -> Seq<char> {
    if d.len() < 20 + stated_len(d) {
        "STUN error message truncated"@
    } else if bytes::be32_at(d, 4) != MAGIC_COOKIE {
        "STUN error response: bad magic cookie: 0x"@ + text::hex_digits(
            bytes::be32_at(d, 4) as nat,
            8,
        )
    } else if d.subrange(8, 20) != tx_id {
        "STUN error response: transaction ID mismatch"@
    } else {
        match first_error(attributes_of(d)) {
            Some(v) => error_text(v),
            None => "STUN error response (no ERROR-CODE attribute)"@,
        }
    }
}

/// Why a message is no Binding Success Response to the transaction, if it is
/// none.
pub open spec fn refusal(d: Seq<u8>, tx_id: Seq<u8>) -> Option<Seq<char>> {
    if bytes::be16_at(d, 0) == 0x0111 {
        Some(error_response(d, tx_id))
    } else if bytes::be16_at(d, 0) != 0x0101 {
        Some(
            "unexpected STUN message type: 0x"@ + text::hex_digits(
                bytes::be16_at(d, 0) as nat,
                4,
            ),
        )
    } else if d.len() < 20 + stated_len(d) {
        Some("STUN message truncated"@)
    } else if bytes::be32_at(d, 4) != MAGIC_COOKIE {
        Some("bad magic cookie: 0x"@ + text::hex_digits(bytes::be32_at(d, 4) as nat, 8))
    } else if d.subrange(8, 20) != tx_id {
        Some("STUN transaction ID mismatch"@)
    } else {
        None
    }
}

/// Whether there is enough of a message to look at: its type, and its length
/// where the type is that of a response.
pub open spec fn readable(d: Seq<u8>) -> bool {
    d.len() >= 2 && (bytes::be16_at(d, 0) == 0x0101 || bytes::be16_at(d, 0) == 0x0111 ==> d.len()
        >= 4)
}

/// The mapped address of a response: the first masked one, else the first
/// plain one.
pub open spec fn response_address(d: Seq<u8>, tx_id: Seq<u8>) -> Option<SocketAddr> {
    let list = attributes_of(d);
    match first_xor(list, mask_key(MAGIC_COOKIE, tx_id)) {
        Some(a) => Some(a),
        None => first_mapped(list),
    }
}

/// The mapped address of a response: the last masked one, else the first plain
/// one.
pub open spec fn full_address(d: Seq<u8>, tx_id: Seq<u8>) -> Option<SocketAddr> {
    let list = attributes_of(d);
    match last_xor(list, mask_key(MAGIC_COOKIE, tx_id), None) {
        Some(a) => Some(a),
        None => first_mapped(list),
    }
}

proof fn lemma_first_and_last(list: Seq<Attribute>, key: Seq<u8>, none: Option<SocketAddr>)
    ensures
        none is Some ==> last_xor(list, key, none) is Some,
        none is None ==> (last_xor(list, key, none) is Some <==> first_xor(list, key) is Some),
    decreases list.len(),
{
    if list.len() > 0 {
        if list[0].kind == ATTR_XOR_MAPPED_ADDRESS && xor_mapped_address(
            list[0].value,
            key,
        ) is Some {
            lemma_first_and_last(
                list.drop_first(),
                key,
                xor_mapped_address(list[0].value, key),
            );
        } else {
            lemma_first_and_last(list.drop_first(), key, none);
        }
    }
}

/// A response that has a mapped address for the one reading has one for the
/// other.
pub proof fn law_both_readings_find_an_address(d: Seq<u8>, tx_id: Seq<u8>)
    ensures
        response_address(d, tx_id) is Some <==> full_address(d, tx_id) is Some,
{
    lemma_first_and_last(attributes_of(d), mask_key(MAGIC_COOKIE, tx_id), None);
}

// ── reading ─────────────────────────────────────────────────────────────

fn read_address(v: &[u8]) -> (r: Option<SocketAddr>)
    ensures
        r == mapped_address(v@),
{
    if v.len() >= 8 && v[1] == 1 {
        Some(
            SocketAddr { ip: IpAddr::V4(v[4], v[5], v[6], v[7]), port: bytes::read_be16(v, 2) },
        )
    } else if v.len() >= 20 && v[1] == 2 {
        Some(
            SocketAddr {
                ip: IpAddr::V6(
                    bytes::read_be16(v, 4),
                    bytes::read_be16(v, 6),
                    bytes::read_be16(v, 8),
                    bytes::read_be16(v, 10),
                    bytes::read_be16(v, 12),
                    bytes::read_be16(v, 14),
                    bytes::read_be16(v, 16),
                    bytes::read_be16(v, 18),
                ),
                port: bytes::read_be16(v, 2),
            },
        )
    } else {
        None
    }
}

fn read_xor_address(v: &[u8], cookie: u32, tx_id: &[u8; 12]) -> (r: Option<SocketAddr>)
    ensures
        r == xor_mapped_address(v@, mask_key(cookie, tx_id@)),
{
    let mut key: Vec<u8> = Vec::new();
    bytes::push_be32(&mut key, cookie);
    bytes::extend(&mut key, tx_id.as_slice());
    assert(key@ =~= mask_key(cookie, tx_id@));
    let mut plain: Vec<u8> = Vec::new();
    let mut i: usize = 0;
    while i < v.len()
        invariant
            i <= v@.len(),
            key@.len() == 16,
            plain@ == masked(v@, key@).take(i as int),
        decreases v@.len() - i,
    {
        let b: u8 = if 2 <= i && i < 4 {
            v[i] ^ key[i - 2]
        } else if 4 <= i && i < 20 {
            v[i] ^ key[i - 4]
        } else {
            v[i]
        };
        plain.push(b);
        i += 1;
        assert(plain@ =~= masked(v@, key@).take(i as int));
    }
    assert(plain@ =~= masked(v@, key@));
    read_address(plain.as_slice())
}

/// The address in a MAPPED-ADDRESS value.
pub fn parse_mapped_address(data: &[u8]) -> (r: Option<String>)
    ensures
        match mapped_address(data@) {
            Some(a) => r is Some && r->0@ == a.text(),
            None => r is None,
        },
{
    match read_address(data) {
        Some(a) => Some(a.to_text()),
        None => None,
    }
}

/// The address in an XOR-MAPPED-ADDRESS value.
pub fn parse_xor_mapped_address(data: &[u8], cookie: u32, tx_id: &[u8; 12]) -> (r: Option<String>)
    ensures
        match xor_mapped_address(data@, mask_key(cookie, tx_id@)) {
            Some(a) => r is Some && r->0@ == a.text(),
            None => r is None,
        },
{
    match read_xor_address(data, cookie, tx_id) {
        Some(a) => Some(a.to_text()),
        None => None,
    }
}

/// What was found among the attributes of a message.
struct Found {
    first_xor: Option<SocketAddr>,
    last_xor: Option<SocketAddr>,
    mapped: Option<SocketAddr>,
    other: Option<SocketAddr>,
    error: Option<Vec<u8>>,
}

/// One value, where there was none before.
spec fn or_else<T>(a: Option<T>, b: Option<T>) -> Option<T> {
    if a is Some {
        a
    } else {
        b
    }
}

spec fn bytes_of(a: Option<Vec<u8>>) -> Option<Seq<u8>> {
    match a {
        Some(v) => Some(v@),
        None => None,
    }
}

/// `f` is what the attributes hold.
spec fn found_all(f: Found, list: Seq<Attribute>, key: Seq<u8>) -> bool {
    &&& f.first_xor == first_xor(list, key)
    &&& f.last_xor == last_xor(list, key, None)
    &&& f.mapped == first_mapped(list)
    &&& f.other == last_other(list, key, None)
    &&& bytes_of(f.error) == first_error(list)
}

/// Looks through the attributes `a`.
fn look_through(a: &[u8], tx_id: &[u8; 12]) -> (f: Found)
    requires
        a@.len() <= 0xFFFF,
    ensures
        found_all(f, attributes(a@, 0), mask_key(MAGIC_COOKIE, tx_id@)),
{
    let ghost key = mask_key(MAGIC_COOKIE, tx_id@);
    let ghost whole = attributes(a@, 0);
    let mut f = Found { first_xor: None, last_xor: None, mapped: None, other: None, error: None };
    let mut i: usize = 0;
    while i + 4 <= a.len() && i + 4 + bytes::read_be16(a, i + 2) as usize <= a.len()
        invariant
            i <= a@.len() + 3,
            a@.len() <= 0xFFFF,
            key == mask_key(MAGIC_COOKIE, tx_id@),
            whole == attributes(a@, 0),
            first_xor(whole, key) == or_else(f.first_xor, first_xor(attributes(a@, i as int), key)),
            last_xor(whole, key, None) == last_xor(attributes(a@, i as int), key, f.last_xor),
            first_mapped(whole) == or_else(f.mapped, first_mapped(attributes(a@, i as int))),
            last_other(whole, key, None) == last_other(attributes(a@, i as int), key, f.other),
            first_error(whole) == or_else(bytes_of(f.error), first_error(attributes(a@, i as int))),
        decreases a@.len() + 4 - i,
    {
        let n = bytes::read_be16(a, i + 2) as usize;
        let end = i + 4 + n;
        let value = &a[i + 4..end];
        let kind = bytes::read_be16(a, i);
        let ghost list = attributes(a@, i as int);
        let ghost attr = Attribute { kind, value: value@ };
        assert(list[0] == attr);
        let next = end + (4 - n % 4) % 4;
        assert(next == next_at(a@, i as int));
        assert(list.drop_first() =~= attributes(a@, next as int));
        if kind == ATTR_XOR_MAPPED_ADDRESS {
            match read_xor_address(value, MAGIC_COOKIE, tx_id) {
                Some(x) => {
                    if f.first_xor.is_none() {
                        f.first_xor = Some(x);
                    }
                    f.last_xor = Some(x);
                },
                None => {},
            }
        } else if kind == ATTR_MAPPED_ADDRESS {
            if f.mapped.is_none() {
                f.mapped = read_address(value);
            }
        } else if kind == ATTR_OTHER_ADDRESS || kind == ATTR_CHANGED_ADDRESS {
            match read_xor_address(value, MAGIC_COOKIE, tx_id) {
                Some(x) => {
                    f.other = Some(x);
                },
                None => {},
            }
        } else if kind == ATTR_ERROR_CODE && n >= 4 {
            if f.error.is_none() {
                f.error = Some(vstd::slice::slice_to_vec(value));
            }
        }
        i = next;
    }
    assert(attributes(a@, i as int) =~= Seq::empty());
    f
}

proof fn lemma_trimmed_start(s: Seq<char>, i: int)
    requires
        0 <= i <= s.len(),
        forall|j: int| 0 <= j < i ==> is_white_space(#[trigger] s[j]),
        i < s.len() ==> !is_white_space(s[i]),
    ensures
        trimmed_start(s) == s.skip(i),
    decreases i,
{
    if i > 0 {
        assert(is_white_space(s[0]));
        let t = s.drop_first();
        assert forall|j: int| 0 <= j < i - 1 implies is_white_space(#[trigger] t[j]) by {
            assert(t[j] == s[j + 1]);
        }
        lemma_trimmed_start(t, i - 1);
        assert(t.skip(i - 1) =~= s.skip(i));
    } else {
        assert(s.skip(0) =~= s);
    }
}

proof fn lemma_trimmed_end(s: Seq<char>, i: int)
    requires
        0 <= i <= s.len(),
        forall|j: int| i <= j < s.len() ==> is_white_space(#[trigger] s[j]),
        i > 0 ==> !is_white_space(s[i - 1]),
    ensures
        trimmed_end(s) == s.take(i),
    decreases s.len() - i,
{
    if i < s.len() {
        assert(is_white_space(s.last()));
        let t = s.drop_last();
        assert forall|j: int| i <= j < t.len() implies is_white_space(#[trigger] t[j]) by {
            assert(t[j] == s[j]);
        }
        lemma_trimmed_end(t, i);
        assert(t.take(i) =~= s.take(i));
    } else {
        assert(s.take(i) =~= s);
    }
}

/// Appends `s` without the white space around it.
fn push_trimmed(out: &mut String, s: &str)
    ensures
        final(out)@ == old(out)@ + trimmed_end(trimmed_start(s@)),
{
    let c = text::chars_of(s);
    let mut lo: usize = 0;
    while lo < c.len() && c[lo].is_whitespace()
        invariant
            lo <= c@.len(),
            forall|j: int| 0 <= j < lo ==> is_white_space(#[trigger] c@[j]),
        decreases c@.len() - lo,
    {
        lo += 1;
    }
    proof {
        lemma_trimmed_start(c@, lo as int);
    }
    let ghost t = c@.skip(lo as int);
    let mut hi: usize = c.len();
    while hi > lo && c[hi - 1].is_whitespace()
        invariant
            lo <= hi <= c@.len(),
            t == c@.skip(lo as int),
            forall|j: int| hi - lo <= j < t.len() ==> is_white_space(#[trigger] t[j]),
        decreases hi,
    {
        assert(t[hi - 1 - lo] == c@[hi - 1]);
        hi -= 1;
    }
    assert(hi > lo ==> t[hi - 1 - lo] == c@[hi - 1]);
    proof {
        lemma_trimmed_end(t, hi - lo);
    }
    let part = &c.as_slice()[lo..hi];
    assert(part@ =~= t.take(hi - lo));
    text::push_str(out, text::string_of(part).as_str());
}

/// What is said of an error with the given code and reason phrase.
pub fn describe_error(code: u64, reason: &str) -> (r: String)
    ensures
        r@ == said_of_error(code as nat, reason@),
{
    let mut e = "STUN error response: ".to_owned();
    text::push_decimal(&mut e, code);
    e.push(' ');
    push_trimmed(&mut e, reason);
    assert(e@ =~= said_of_error(code as nat, reason@));
    e
}

/// What is said of an ERROR-CODE value.
fn describe_error_code(v: &[u8]) -> (r: String)
    requires
        v@.len() >= 4,
    ensures
        r@ == error_text(v@),
{
    let reason = &v[4..v.len()];
    assert(reason@ =~= v@.skip(4));
    describe_error((v[2] % 8) as u64 * 100 + v[3] as u64, lossy_text(reason).as_str())
}

/// Whether a whole message carries the transaction.
fn is_transaction(data: &[u8], tx_id: &[u8; 12]) -> (r: bool)
    requires
        data@.len() >= 20,
    ensures
        r == (data@.subrange(8, 20) == tx_id@),
{
    bytes::same_bytes(&data[8..20], tx_id.as_slice())
}

/// Parse a STUN Binding Error Response (type 0x0111) into a human-readable
/// error string including the error code and reason phrase.
pub fn parse_error_response(data: &[u8], expected_tx_id: &[u8; 12]) -> (r: String)
    requires
        data@.len() >= 4,
    ensures
        r@ == error_response(data@, expected_tx_id@),
{
    let msg_len = bytes::read_be16(data, 2) as usize;
    if data.len() < 20 + msg_len {
        return "STUN error message truncated".to_owned();
    }
    let cookie = bytes::read_be32(data, 4);
    if cookie != MAGIC_COOKIE {
        let mut e = "STUN error response: bad magic cookie: 0x".to_owned();
        text::push_hex_digits(&mut e, cookie as u64, 8);
        return e;
    }
    if !is_transaction(data, expected_tx_id) {
        return "STUN error response: transaction ID mismatch".to_owned();
    }
    let attrs = &data[20..20 + msg_len];
    proof {
        lemma_first_error(attributes_of(data@));
    }
    let found = look_through(attrs, expected_tx_id);
    match found.error {
        Some(v) => describe_error_code(v.as_slice()),
        None => "STUN error response (no ERROR-CODE attribute)".to_owned(),
    }
}

proof fn lemma_first_error(list: Seq<Attribute>)
    ensures
        first_error(list) matches Some(v) ==> v.len() >= 4,
    decreases list.len(),
{
    if list.len() > 0 {
        lemma_first_error(list.drop_first());
    }
}

/// Why a message is no Binding Success Response to the transaction, if it is
/// none.
fn refuse(data: &[u8], expected_tx_id: &[u8; 12]) -> (r: Option<String>)
    requires
        readable(data@),
    ensures
        match refusal(data@, expected_tx_id@) {
            Some(e) => r is Some && r->0@ == e,
            None => r is None,
        },
{
    let msg_type = bytes::read_be16(data, 0);
    if msg_type == BINDING_ERROR {
        return Some(parse_error_response(data, expected_tx_id));
    }
    if msg_type != BINDING_SUCCESS {
        let mut e = "unexpected STUN message type: 0x".to_owned();
        text::push_hex_digits(&mut e, msg_type as u64, 4);
        return Some(e);
    }
    let msg_len = bytes::read_be16(data, 2) as usize;
    if data.len() < 20 + msg_len {
        return Some("STUN message truncated".to_owned());
    }
    let cookie = bytes::read_be32(data, 4);
    if cookie != MAGIC_COOKIE {
        let mut e = "bad magic cookie: 0x".to_owned();
        text::push_hex_digits(&mut e, cookie as u64, 8);
        return Some(e);
    }
    if !is_transaction(data, expected_tx_id) {
        return Some("STUN transaction ID mismatch".to_owned());
    }
    None
}

/// The mapped address in a STUN Binding Response.
pub fn parse_binding_response(data: &[u8], expected_tx_id: &[u8; 12]) -> (r: Result<
    String,
    String,
>)
    requires
        readable(data@),
    ensures
        match refusal(data@, expected_tx_id@) {
            Some(e) => r is Err && r->Err_0@ == e,
            None => match response_address(data@, expected_tx_id@) {
                Some(a) => r is Ok && r->Ok_0@ == a.text(),
                None => r is Err && r->Err_0@ == "STUN response missing MAPPED-ADDRESS"@,
            },
        },
{
    match refuse(data, expected_tx_id) {
        Some(e) => {
            return Err(e);
        },
        None => {},
    }
    let msg_len = bytes::read_be16(data, 2) as usize;
    let attrs = &data[20..20 + msg_len];
    let found = look_through(attrs, expected_tx_id);
    match found.first_xor {
        Some(a) => Ok(a.to_text()),
        None => match found.mapped {
            Some(a) => Ok(a.to_text()),
            None => Err("STUN response missing MAPPED-ADDRESS".to_owned()),
        },
    }
}

/// Parse a STUN Binding Response and return both mapped and other addresses.
/// This is used for dual-server NAT probing.
pub fn parse_binding_response_full(data: &[u8], expected_tx_id: &[u8; 12]) -> (r: Result<
    StunResult,
    String,
>)
    requires
        readable(data@),
    ensures
        match refusal(data@, expected_tx_id@) {
            Some(e) => r is Err && r->Err_0@ == e,
            None => match full_address(data@, expected_tx_id@) {
                Some(a) => {
                    &&& r is Ok
                    &&& r->Ok_0.mapped_addr@ == a.text()
                    &&& match last_other(
                        attributes_of(data@),
                        mask_key(MAGIC_COOKIE, expected_tx_id@),
                        None,
                    ) {
                        Some(b) => r->Ok_0.other_addr is Some && r->Ok_0.other_addr->0@ == b.text(),
                        None => r->Ok_0.other_addr is None,
                    }
                },
                None => r is Err && r->Err_0@ == "STUN response missing MAPPED-ADDRESS"@,
            },
        },
{
    match refuse(data, expected_tx_id) {
        Some(e) => {
            return Err(e);
        },
        None => {},
    }
    let msg_len = bytes::read_be16(data, 2) as usize;
    let attrs = &data[20..20 + msg_len];
    let found = look_through(attrs, expected_tx_id);
    let mapped = match found.last_xor {
        Some(a) => a,
        None => match found.mapped {
            Some(a) => a,
            None => {
                return Err("STUN response missing MAPPED-ADDRESS".to_owned());
            },
        },
    };
    let other_addr = match found.other {
        Some(b) => Some(b.to_text()),
        None => None,
    };
    Ok(StunResult { mapped_addr: mapped.to_text(), other_addr })
}

/// The mapped address in a datagram that came in: one shorter than a header is
/// refused.
pub fn accept_response(data: &[u8], expected_tx_id: &[u8; 12]) -> (r: Result<String, String>)
    ensures
        data@.len() < 20 ==> r is Err && r->Err_0@ == "STUN response too short"@,
        data@.len() >= 20 ==> match refusal(data@, expected_tx_id@) {
            Some(e) => r is Err && r->Err_0@ == e,
            None => match response_address(data@, expected_tx_id@) {
                Some(a) => r is Ok && r->Ok_0@ == a.text(),
                None => r is Err && r->Err_0@ == "STUN response missing MAPPED-ADDRESS"@,
            },
        },
{
    if data.len() < 20 {
        return Err("STUN response too short".to_owned());
    }
    parse_binding_response(data, expected_tx_id)
}

/// The mapped and the other address in a datagram that came in: one shorter
/// than a header is refused.
pub fn accept_response_full(data: &[u8], expected_tx_id: &[u8; 12]) -> (r: Result<
    StunResult,
    String,
>)
    ensures
        data@.len() < 20 ==> r is Err && r->Err_0@ == "STUN response too short"@,
        data@.len() >= 20 ==> match refusal(data@, expected_tx_id@) {
            Some(e) => r is Err && r->Err_0@ == e,
            None => match full_address(data@, expected_tx_id@) {
                Some(a) => {
                    &&& r is Ok
                    &&& r->Ok_0.mapped_addr@ == a.text()
                    &&& match last_other(
                        attributes_of(data@),
                        mask_key(MAGIC_COOKIE, expected_tx_id@),
                        None,
                    ) {
                        Some(b) => r->Ok_0.other_addr is Some && r->Ok_0.other_addr->0@ == b.text(),
                        None => r->Ok_0.other_addr is None,
                    }
                },
                None => r is Err && r->Err_0@ == "STUN response missing MAPPED-ADDRESS"@,
            },
        },
{
    if data.len() < 20 {
        return Err("STUN response too short".to_owned());
    }
    parse_binding_response_full(data, expected_tx_id)
}

/// The local addresses that a request is sent from: any of the server's family,
/// else any of the other.
pub fn bind_addresses(server: &SocketAddr) -> (r: (String, String))
    ensures
        r.0@ == (if server.ip is V4 {
            "0.0.0.0:0"@
        } else {
            "[::]:0"@
        }),
        r.1@ == (if server.ip is V4 {
            "[::]:0"@
        } else {
            "0.0.0.0:0"@
        }),
{
    if server.ip.is_ipv4() {
        ("0.0.0.0:0".to_owned(), "[::]:0".to_owned())
    } else {
        ("[::]:0".to_owned(), "0.0.0.0:0".to_owned())
    }
}

} // verus!
