//! KCP compatibility layer matching the kcp-go wire format.
//!
//! kcp-go wraps raw KCP with two layers:
//! 1. XOR encryption (repeating key)
//! 2. FEC — Reed-Solomon forward error correction over GF(2^8)
use vstd::prelude::*;
use vstd::slice::slice_to_vec;

pub mod gf256;
pub mod matrix;

use self::matrix::invert_matrix;

verus! {

/// The field element that row `r` of the Vandermonde matrix is built on.
pub open spec fn node(r: int) -> u8 {
    (r % 256) as u8
}

/// The `k` by `k` Vandermonde matrix on the nodes `0 .. k`.
pub open spec fn vandermonde(k: nat) -> Seq<Seq<u8>> {
    Seq::new(k, |r: int| matrix::powers(node(r), k))
}

/// `e` holds the `p` parity rows of the systematic code with `k` data shards:
/// multiplied by the Vandermonde matrix of the data nodes, row `i` gives the
/// Vandermonde row of node `k + i`.
pub open spec fn parity_code(e: Seq<Seq<u8>>, k: nat, p: nat) -> bool {
    &&& e.len() == p
    &&& forall|i: int| 0 <= i < p ==> (#[trigger] e[i]).len() == k
    &&& forall|i: int, c: int|
        #![trigger matrix::dot(e[i], matrix::column(vandermonde(k), c), k)]
        0 <= i < p && 0 <= c < k ==> matrix::dot(e[i], matrix::column(vandermonde(k), c), k) == gf256::gf_pow(
            node(k + i),
            c as nat,
        )
}

/// Row `i` of the code: a unit row for a data shard, else a parity row.
pub open spec fn code_row(e: Seq<Seq<u8>>, k: nat, i: int) -> Seq<u8> {
    if i < k {
        Seq::new(
            k,
            |c: int|
                if c == i {
                    1u8
                } else {
                    0u8
                },
        )
    } else {
        e[i - k]
    }
}

/// The contents of a sequence of byte slices.
pub open spec fn slices(input: Seq<&[u8]>) -> Seq<Seq<u8>> {
    Seq::new(input.len(), |i: int| input[i]@)
}

/// Parity shard `i` of the data shards `data`, over the first `n` bytes.
pub open spec fn parity_shard(e: Seq<Seq<u8>>, data: Seq<Seq<u8>>, i: int, n: nat) -> Seq<u8> {
    Seq::new(n, |b: int| matrix::dot(e[i], matrix::column(data, b), data.len()))
}

/// The indices in `lo .. hi` at which a shard is present, in ascending order.
pub open spec fn present(s: Seq<Option<Vec<u8>>>, lo: int, hi: int) -> Seq<int>
    decreases hi - lo,
{
    if hi <= lo {
        Seq::empty()
    } else if s[hi - 1] is Some {
        present(s, lo, hi - 1).push(hi - 1)
    } else {
        present(s, lo, hi - 1)
    }
}

/// The length of the first shard that is present, 0 without any.
pub open spec fn block_size(s: Seq<Option<Vec<u8>>>) -> nat {
    if present(s, 0, s.len() as int).len() == 0 {
        0
    } else {
        s[present(s, 0, s.len() as int)[0]]->0@.len()
    }
}

/// The shards that a reconstruction reads: the data shards that are present,
/// then parity shards until there are `k`.
pub open spec fn selected(s: Seq<Option<Vec<u8>>>, k: nat) -> Seq<int> {
    (present(s, 0, k as int) + present(s, k as int, s.len() as int)).take(k as int)
}

/// The code's rows of the shards that a reconstruction reads.
pub open spec fn selected_rows(e: Seq<Seq<u8>>, k: nat, s: Seq<Option<Vec<u8>>>) -> Seq<Seq<u8>> {
    Seq::new(k, |t: int| code_row(e, k, selected(s, k)[t]))
}

/// Whether the shards `s` determine the data.
pub open spec fn decodable(e: Seq<Seq<u8>>, k: nat, s: Seq<Option<Vec<u8>>>) -> bool {
    &&& block_size(s) > 0
    &&& present(s, 0, s.len() as int).len() >= k
    &&& !matrix::singular(selected_rows(e, k, s), k)
}

/// Whether every data shard is there.
pub open spec fn all_data(s: Seq<Option<Vec<u8>>>, k: nat) -> bool {
    forall|i: int| 0 <= i < k ==> (#[trigger] s[i]) is Some
}

/// Whether a reconstruction from `s` finds what it reads: the shards that it
/// selects are of the code, and where it has a data shard to make up, none of
/// them is shorter than the first shard that is present.
pub open spec fn legible(e: Seq<Seq<u8>>, k: nat, s: Seq<Option<Vec<u8>>>) -> bool {
    &&& block_size(s) > 0 && present(s, 0, s.len() as int).len() >= k ==> forall|t: int|
        0 <= t < k ==> #[trigger] selected(s, k)[t] < k + e.len()
    &&& decodable(e, k, s) && !all_data(s, k) ==> forall|t: int|
        0 <= t < k ==> block_size(s) <= s[#[trigger] selected(s, k)[t]]->0@.len()
}

/// Byte `b` of the first `k` shards.
pub open spec fn data_column(s: Seq<Option<Vec<u8>>>, k: nat, b: int) -> Seq<u8> {
    Seq::new(k, |i: int| s[i]->0@[b])
}

/// `after` is `before` with its missing data shards filled in so that the code
/// gives every shard that was read.
pub open spec fn reconstructed(
    e: Seq<Seq<u8>>,
    k: nat,
    before: Seq<Option<Vec<u8>>>,
    after: Seq<Option<Vec<u8>>>,
) -> bool {
    &&& after.len() == before.len()
    &&& forall|i: int|
        0 <= i < before.len() && (k <= i || before[i] is Some) ==> #[trigger] after[i] == before[i]
    &&& forall|i: int|
        0 <= i < k && before[i] is None ==> (#[trigger] after[i]) is Some && after[i]->0@.len()
            == block_size(before)
    &&& forall|b: int, t: int|
        #![trigger matrix::dot(selected_rows(e, k, before)[t], data_column(after, k, b), k)]
        0 <= b < block_size(before) && 0 <= t < k ==> matrix::dot(
            selected_rows(e, k, before)[t],
            data_column(after, k, b),
            k,
        ) == before[selected(before, k)[t]]->0@[b]
}

// ── facts on the selection ──────────────────────────────────────────────

pub proof fn lemma_present(s: Seq<Option<Vec<u8>>>, lo: int, hi: int)
    requires
        lo <= hi,
    ensures
        present(s, lo, hi).len() <= hi - lo,
        forall|t: int|
            0 <= t < present(s, lo, hi).len() ==> lo <= #[trigger] present(s, lo, hi)[t] < hi
                && s[present(s, lo, hi)[t]] is Some,
        forall|t: int, u: int|
            0 <= t < u < present(s, lo, hi).len() ==> #[trigger] present(s, lo, hi)[t]
                < #[trigger] present(s, lo, hi)[u],
        forall|i: int|
            lo <= i < hi && #[trigger] s[i] is Some ==> present(s, lo, hi).contains(i),
    decreases hi - lo,
{
    if lo < hi {
        lemma_present(s, lo, hi - 1);
        let p = present(s, lo, hi - 1);
        let q = present(s, lo, hi);
        assert forall|i: int| lo <= i < hi && #[trigger] s[i] is Some implies q.contains(i) by {
            if i < hi - 1 {
                let t = choose|t: int| 0 <= t < p.len() && p[t] == i;
                assert(q[t] == i);
            } else {
                assert(q[q.len() - 1] == i);
            }
        }
    }
}

proof fn lemma_present_split(s: Seq<Option<Vec<u8>>>, lo: int, mid: int, hi: int)
    requires
        lo <= mid <= hi,
    ensures
        present(s, lo, hi) == present(s, lo, mid) + present(s, mid, hi),
    decreases hi - mid,
{
    if mid < hi {
        lemma_present_split(s, lo, mid, hi - 1);
        assert(present(s, lo, hi) =~= present(s, lo, mid) + present(s, mid, hi));
    } else {
        assert(present(s, lo, hi) =~= present(s, lo, mid) + present(s, mid, hi));
    }
}

/// With `k` shards present the selection is `k` distinct present shards,
/// among them every data shard that is present.
proof fn lemma_selected(s: Seq<Option<Vec<u8>>>, k: nat)
    requires
        present(s, 0, s.len() as int).len() >= k,
    ensures
        s.len() >= k,
        selected(s, k).len() == k,
        forall|t: int|
            0 <= t < k ==> 0 <= #[trigger] selected(s, k)[t] < s.len() && s[selected(s, k)[t]] is Some,
        forall|t: int, u: int|
            0 <= t < u < k ==> #[trigger] selected(s, k)[t] != #[trigger] selected(s, k)[u],
        forall|i: int| 0 <= i < k && #[trigger] s[i] is Some ==> selected(s, k).contains(i),
{
    lemma_present(s, 0, s.len() as int);
    lemma_present(s, 0, k as int);
    lemma_present(s, k as int, s.len() as int);
    lemma_present_split(s, 0, k as int, s.len() as int);
    let a = present(s, 0, k as int);
    let b = present(s, k as int, s.len() as int);
    let q = selected(s, k);
    assert forall|t: int| 0 <= t < k implies 0 <= #[trigger] q[t] < s.len() && s[q[t]] is Some by {
        if t < a.len() {
            assert(q[t] == a[t]);
        } else {
            assert(q[t] == b[t - a.len()]);
        }
    }
    assert forall|t: int, u: int| 0 <= t < u < k implies #[trigger] q[t] != #[trigger] q[u] by {
        if u < a.len() {
            assert(q[t] == a[t] && q[u] == a[u]);
        } else if t < a.len() {
            assert(q[t] == a[t] && q[u] == b[u - a.len()]);
        } else {
            assert(q[t] == b[t - a.len()] && q[u] == b[u - a.len()]);
        }
    }
    assert forall|i: int| 0 <= i < k && #[trigger] s[i] is Some implies q.contains(i) by {
        let t = choose|t: int| 0 <= t < a.len() && a[t] == i;
        assert(q[t] == i);
    }
}

/// Shards of the code, none shorter than the first that is present, can be read
/// whichever are selected.
pub proof fn lemma_full_shards_are_legible(e: Seq<Seq<u8>>, k: nat, s: Seq<Option<Vec<u8>>>)
    requires
        s.len() <= k + e.len(),
        forall|i: int|
            0 <= i < s.len() && (#[trigger] s[i]) is Some ==> block_size(s) <= s[i]->0@.len(),
    ensures
        legible(e, k, s),
{
    if present(s, 0, s.len() as int).len() >= k {
        lemma_selected(s, k);
    }
}

// ── facts on the code ───────────────────────────────────────────────────

proof fn lemma_vandermonde_regular(k: nat)
    requires
        k <= 256,
    ensures
        !matrix::singular(vandermonde(k), k),
{
    let m = vandermonde(k);
    if matrix::singular(m, k) {
        let v = choose|v: Seq<u8>| #[trigger]
            matrix::annihilates(m, v, k) && v.len() == k && !matrix::is_zero(v);
        let xs = Seq::new(k, |i: int| node(i));
        assert forall|i: int| 0 <= i < xs.len() implies matrix::evaluate(v, #[trigger] xs[i]) == 0 by {
            assert(matrix::dot(m[i], v, k) == 0);
            matrix::lemma_dot_powers(m[i], node(i), v, k);
            assert(v.take(k as int) =~= v);
        }
        matrix::lemma_too_many_roots(v, xs);
    }
}

/// The code's rows of distinct nodes determine the data.
proof fn lemma_rows_regular(e: Seq<Seq<u8>>, k: nat, p: nat, idx: Seq<int>, m: Seq<Seq<u8>>)
    requires
        parity_code(e, k, p),
        0 < k,
        k + p <= 256,
        idx.len() == k,
        m.len() == k,
        forall|t: int| 0 <= t < k ==> 0 <= #[trigger] idx[t] < k + p,
        forall|t: int, u: int| 0 <= t < u < k ==> #[trigger] idx[t] != #[trigger] idx[u],
        forall|t: int| 0 <= t < k ==> #[trigger] m[t] == code_row(e, k, idx[t]),
    ensures
        !matrix::singular(m, k),
{
    if matrix::singular(m, k) {
        let v = choose|v: Seq<u8>| #[trigger]
            matrix::annihilates(m, v, k) && v.len() == k && !matrix::is_zero(v);
        let vm = vandermonde(k);
        lemma_vandermonde_regular(k);
        let inv = matrix::lemma_has_inverse(vm, k);
        // v is the values at 0..k of the polynomial u, which has the roots idx.
        let u = matrix::times(inv, v, k);
        matrix::lemma_identity_undoes(vm, inv, v, k);
        assert(matrix::times(vm, u, k) == v);
        let xs = Seq::new(k, |t: int| node(idx[t]));
        assert forall|t: int| 0 <= t < xs.len() implies matrix::evaluate(u, #[trigger] xs[t]) == 0 by {
            let i = idx[t];
            assert(matrix::dot(m[t], v, k) == 0);
            assert(u.take(k as int) =~= u);
            if i < k {
                matrix::lemma_dot_unit(m[t], v, i, k);
                assert(v[i] == matrix::dot(vm[i], u, k));
                matrix::lemma_dot_powers(vm[i], node(i), u, k);
            } else {
                let y = matrix::powers(node(i), k);
                matrix::lemma_dot_powers(y, node(i), u, k);
                assert forall|c: int| 0 <= c < k implies #[trigger] y[c] == matrix::dot(
                    e[i - k],
                    matrix::column(vm, c),
                    k,
                ) by {
                    assert(node(k + (i - k)) == node(i));
                }
                matrix::lemma_dot_associates(e[i - k], vm, u, y, k);
            }
        }
        assert forall|t: int, w: int| 0 <= t < w < xs.len() implies xs[t] != xs[w] by {
            assert(idx[t] != idx[w]);
        }
        matrix::lemma_too_many_roots(u, xs);
        assert forall|i: int| 0 <= i < k implies v[i] == 0 by {
            assert(v[i] == matrix::dot(vm[i], u, k));
            lemma_dot_with_zero(vm[i], u, k);
        }
    }
}

proof fn lemma_dot_with_zero(x: Seq<u8>, z: Seq<u8>, n: nat)
    requires
        n <= z.len(),
        matrix::is_zero(z),
    ensures
        matrix::dot(x, z, n) == 0,
    decreases n,
{
    if n > 0 {
        lemma_dot_with_zero(x, z, (n - 1) as nat);
        gf256::lemma_mul_units(x[n - 1]);
        assert(0u8 ^ 0u8 == 0u8) by (bit_vector);
    }
}

// ── laws of the code ────────────────────────────────────────────────────

/// Any `k` of the `k + p` shards determine the data.
pub proof fn law_any_k_shards_suffice(
    e: Seq<Seq<u8>>,
    k: nat,
    p: nat,
    s: Seq<Option<Vec<u8>>>,
)
    requires
        parity_code(e, k, p),
        0 < k,
        k + p <= 256,
        s.len() <= k + p,
        present(s, 0, s.len() as int).len() >= k,
    ensures
        !matrix::singular(selected_rows(e, k, s), k),
        block_size(s) > 0 ==> decodable(e, k, s),
{
    lemma_selected(s, k);
    lemma_rows_regular(e, k, p, selected(s, k), selected_rows(e, k, s));
}

/// What a reconstruction fills in is what was encoded: where every shard that
/// is present is that of `data`, the data shards afterwards are `data`.
pub proof fn law_reconstruction_recovers_data(
    e: Seq<Seq<u8>>,
    k: nat,
    p: nat,
    data: Seq<Seq<u8>>,
    n: nat,
    before: Seq<Option<Vec<u8>>>,
    after: Seq<Option<Vec<u8>>>,
)
    requires
        parity_code(e, k, p),
        0 < k,
        k + p <= 256,
        data.len() == k,
        forall|i: int| 0 <= i < k ==> (#[trigger] data[i]).len() == n,
        before.len() <= k + p,
        present(before, 0, before.len() as int).len() >= k,
        forall|i: int|
            0 <= i < before.len() && (#[trigger] before[i]) is Some ==> before[i]->0@ == (if i < k {
                data[i]
            } else {
                parity_shard(e, data, i - k, n)
            }),
        reconstructed(e, k, before, after),
    ensures
        forall|i: int| 0 <= i < k ==> (#[trigger] after[i]) is Some && after[i]->0@ == data[i],
{
    let m = selected_rows(e, k, before);
    let q = selected(before, k);
    lemma_selected(before, k);
    law_any_k_shards_suffice(e, k, p, before);
    lemma_present(before, 0, before.len() as int);
    let f = present(before, 0, before.len() as int)[0];
    assert(before[f] is Some);
    assert(block_size(before) == n);
    assert forall|i: int| 0 <= i < k implies (#[trigger] after[i]) is Some && after[i]->0@
        == data[i] by {
        if before[i] is Some {
            assert(after[i] == before[i]);
        } else {
            assert(after[i] is Some);
            assert forall|b: int| 0 <= b < n implies after[i]->0@[b] == data[i][b] by {
                lemma_column_recovered(e, k, m, q, data, n, before, after, b);
                assert(data_column(after, k, b)[i] == matrix::column(data, b)[i]);
            }
            assert(after[i]->0@ =~= data[i]);
        }
    }
}

proof fn lemma_column_recovered(
    e: Seq<Seq<u8>>,
    k: nat,
    m: Seq<Seq<u8>>,
    q: Seq<int>,
    data: Seq<Seq<u8>>,
    n: nat,
    before: Seq<Option<Vec<u8>>>,
    after: Seq<Option<Vec<u8>>>,
    b: int,
)
    requires
        0 < k,
        m == selected_rows(e, k, before),
        q == selected(before, k),
        q.len() == k,
        !matrix::singular(m, k),
        data.len() == k,
        0 <= b < n,
        n == block_size(before),
        forall|t: int| 0 <= t < k ==> 0 <= #[trigger] q[t] < before.len() && before[q[t]] is Some,
        forall|i: int|
            0 <= i < before.len() && (#[trigger] before[i]) is Some ==> before[i]->0@ == (if i < k {
                data[i]
            } else {
                parity_shard(e, data, i - k, n)
            }),
        reconstructed(e, k, before, after),
    ensures
        data_column(after, k, b) == matrix::column(data, b),
{
    let x = data_column(after, k, b);
    let y = matrix::column(data, b);
    let z = Seq::new(k, |i: int| x[i] ^ y[i]);
    assert forall|t: int| 0 <= t < k implies #[trigger] matrix::dot(m[t], z, k) == 0 by {
        let i = q[t];
        assert(before[i] is Some);
        assert(matrix::dot(m[t], x, k) == before[i]->0@[b]);
        assert(m[t] == code_row(e, k, i));
        if i < k {
            matrix::lemma_dot_unit(m[t], y, i, k);
        }
        assert(matrix::dot(m[t], y, k) == before[i]->0@[b]);
        matrix::lemma_dot_sum(m[t], x, y, z, k);
        let g = before[i]->0@[b];
        assert(g ^ g == 0) by (bit_vector);
    }
    assert(matrix::annihilates(m, z, k));
    assert(matrix::is_zero(z));
    assert forall|i: int| 0 <= i < k implies x[i] == y[i] by {
        assert(z[i] == 0);
        let (g, h) = (x[i], y[i]);
        assert(g ^ h == 0 ==> g == h) by (bit_vector);
    }
    assert(x =~= y);
}

/// Parity shard `i` continues the data: a polynomial with `k` coefficients
/// whose values at the nodes `0 .. k` are the data bytes has the parity byte
/// as its value at node `k + i`.
pub proof fn law_parity_extends_polynomial(
    e: Seq<Seq<u8>>,
    k: nat,
    p: nat,
    data: Seq<Seq<u8>>,
    coefficients: Seq<u8>,
    i: int,
    b: int,
    n: nat,
)
    requires
        parity_code(e, k, p),
        data.len() == k,
        0 <= i < p,
        0 <= b < n,
        coefficients.len() == k,
        forall|r: int| 0 <= r < k ==> #[trigger] data[r][b] == matrix::evaluate(coefficients, node(r)),
    ensures
        parity_shard(e, data, i, n)[b] == matrix::evaluate(coefficients, node(k + i)),
{
    let vm = vandermonde(k);
    let u = coefficients;
    assert(u.take(k as int) =~= u);
    let y = matrix::powers(node(k + i), k);
    matrix::lemma_dot_powers(y, node(k + i), u, k);
    matrix::lemma_dot_associates(e[i], vm, u, y, k);
    assert forall|r: int| 0 <= r < k implies matrix::times(vm, u, k)[r] == matrix::column(data, b)[r] by {
        matrix::lemma_dot_powers(vm[r], node(r), u, k);
        assert(data[r][b] == matrix::evaluate(u, node(r)));
    }
    assert(matrix::times(vm, u, k) =~= matrix::column(data, b));
}

// ── codec ───────────────────────────────────────────────────────────────

/// Reed-Solomon FEC encoder/decoder over GF(2^8).
///
/// The parity rows are those of the systematic code of the Vandermonde matrix
/// `vm[r][c] = r^c`.
pub struct Fec {
    data_shards: usize,
    parity_shards: usize,
    /// Pre-computed encoding rows for the parity shards.
    encode_matrix: Vec<Vec<u8>>,
}

impl Fec {
    pub closed spec fn data_count(&self) -> nat {
        self.data_shards as nat
    }

    pub closed spec fn parity_count(&self) -> nat {
        self.parity_shards as nat
    }

    /// The parity rows of the code.
    pub closed spec fn parity_rows(&self) -> Seq<Seq<u8>> {
        matrix::rows(self.encode_matrix@)
    }

    pub open spec fn is_enabled(&self) -> bool {
        self.data_count() > 0 && self.parity_count() > 0
    }

    pub open spec fn wf(&self) -> bool {
        &&& self.data_count() + self.parity_count() <= usize::MAX
        &&& self.is_enabled() ==> parity_code(
            self.parity_rows(),
            self.data_count(),
            self.parity_count(),
        )
    }

    /// Create a new FEC codec.
    /// `data_shards` and `parity_shards` match kcp-go parameters.
    /// When both are 0, FEC is effectively disabled (no-op).
    ///
    /// The encoding matrix is that of `klauspost/reedsolomon.New(data, parity)`:
    /// a `(total x data)` Vandermonde matrix `vm[r][c] = r^c` in GF(2^8), made
    /// systematic by right-multiplying with the inverse of its top
    /// `data x data` square. A top square with more than 256 nodes has two
    /// equal rows and no inverse.
    pub fn new(data_shards: usize, parity_shards: usize) -> (r: Fec)
        requires
            data_shards + parity_shards <= usize::MAX,
            data_shards > 0 && parity_shards > 0 ==> data_shards <= 256,
        ensures
            r.wf(),
            r.data_count() == data_shards,
            r.parity_count() == parity_shards,
    {
        let mut encode_matrix: Vec<Vec<u8>> = Vec::new();
        if data_shards > 0 && parity_shards > 0 {
            let ghost k = data_shards as nat;
            let ghost vm = vandermonde(k);
            let mut top: Vec<Vec<u8>> = Vec::with_capacity(data_shards);
            let mut r: usize = 0;
            while r < data_shards
                invariant
                    r <= data_shards <= 256,
                    k == data_shards,
                    vm == vandermonde(k),
                    top.len() == r,
                    forall|t: int| 0 <= t < r ==> (#[trigger] top[t])@ == vm[t],
                decreases data_shards - r,
            {
                top.push(vandermonde_row(r, data_shards));
                r += 1;
            }
            assert(matrix::rows(top@) =~= vm);
            proof {
                lemma_vandermonde_regular(k);
            }
            let top_inv = match invert_matrix(top.as_slice()) {
                Some(inv) => inv,
                None => Vec::new(),
            };
            let ghost ti = matrix::rows(top_inv@);
            let mut i: usize = 0;
            while i < parity_shards
                invariant
                    i <= parity_shards,
                    data_shards + parity_shards <= usize::MAX,
                    0 < data_shards <= 256,
                    k == data_shards,
                    vm == vandermonde(k),
                    ti == matrix::rows(top_inv@),
                    matrix::square(ti, k),
                    matrix::product_is_identity(ti, vm, k),
                    encode_matrix.len() == i,
                    forall|t: int| 0 <= t < i ==> (#[trigger] encode_matrix[t]).len() == k,
                    forall|t: int, c: int|
                        #![trigger encode_matrix[t]@[c]]
                        0 <= t < i && 0 <= c < k ==> encode_matrix[t]@[c] == matrix::dot(
                            matrix::powers(node(k + t), k),
                            matrix::column(ti, c),
                            k,
                        ),
                decreases parity_shards - i,
            {
                let vm_row = vandermonde_row(data_shards + i, data_shards);
                let mut row: Vec<u8> = Vec::with_capacity(data_shards);
                let mut c: usize = 0;
                while c < data_shards
                    invariant
                        c <= data_shards,
                        i < parity_shards,
                        k == data_shards,
                        ti == matrix::rows(top_inv@),
                        matrix::square(ti, k),
                        vm_row@ == matrix::powers(node(k + i), k),
                        row.len() == c,
                        forall|t: int|
                            0 <= t < c ==> #[trigger] row[t] == matrix::dot(vm_row@, matrix::column(ti, t), k),
                    decreases data_shards - c,
                {
                    let mut sum: u8 = 0;
                    let mut t: usize = 0;
                    while t < data_shards
                        invariant
                            t <= data_shards,
                            c < data_shards,
                            k == data_shards,
                            ti == matrix::rows(top_inv@),
                            matrix::square(ti, k),
                            vm_row.len() == k,
                            sum == matrix::dot(vm_row@, matrix::column(ti, c as int), t as nat),
                        decreases data_shards - t,
                    {
                        assert(ti[t as int].len() == k);
                        sum = sum ^ gf256::mul(vm_row[t], top_inv[t][c]);
                        t += 1;
                    }
                    row.push(sum);
                    c += 1;
                }
                encode_matrix.push(row);
                i += 1;
            }
            proof {
                let e = matrix::rows(encode_matrix@);
                assert forall|t: int, c: int|
                    #![trigger matrix::dot(e[t], matrix::column(vandermonde(k), c), k)]
                    0 <= t < parity_shards && 0 <= c < k implies matrix::dot(
                    e[t],
                    matrix::column(vandermonde(k), c),
                    k,
                ) == gf256::gf_pow(node(k + t), c as nat) by {
                    let x = matrix::powers(node(k + t), k);
                    let v = matrix::column(vm, c);
                    matrix::lemma_dot_associates(x, ti, v, e[t], k);
                    assert forall|j: int| 0 <= j < k implies matrix::times(ti, v, k)[j] == (if j == c {
                        1u8
                    } else {
                        0u8
                    }) by {
                        assert(matrix::dot(ti[j], matrix::column(vm, c), k) == (if j == c {
                            1u8
                        } else {
                            0u8
                        }));
                    }
                    matrix::lemma_dot_unit_right(x, matrix::times(ti, v, k), c, k);
                }
                assert forall|t: int| 0 <= t < parity_shards implies (#[trigger] e[t]).len() == k by {
                    assert(encode_matrix[t].len() == k);
                }
            }
        }
        Fec { data_shards, parity_shards, encode_matrix }
    }

    /// Check if FEC is enabled (non-zero shards).
    pub fn enabled(&self) -> (r: bool)
        ensures
            r == self.is_enabled(),
    {
        self.data_shards > 0 && self.parity_shards > 0
    }

    /// The parity shards of the data shards `input`, over the length of the
    /// first. Where FEC is disabled there are none.
    pub fn encode_parity(&self, input: &[&[u8]]) -> (r: Vec<Vec<u8>>)
        requires
            self.wf(),
            self.is_enabled() ==> input@.len() == self.data_count(),
            self.is_enabled() ==> forall|i: int|
                0 <= i < input@.len() ==> slices(input@)[0].len() <= (#[trigger] slices(
                    input@,
                )[i]).len(),
        ensures
            !self.is_enabled() ==> r@.len() == 0,
            self.is_enabled() ==> r@.len() == self.parity_count() && forall|i: int|
                0 <= i < self.parity_count() ==> #[trigger] matrix::rows(r@)[i] == parity_shard(
                    self.parity_rows(),
                    slices(input@),
                    i,
                    slices(input@)[0].len(),
                ),
    {
        let mut output: Vec<Vec<u8>> = Vec::new();
        if !self.enabled() {
            return output;
        }
        let n = input[0].len();
        let ghost data = slices(input@);
        let ghost e = self.parity_rows();
        let ghost k = self.data_count();
        assert(data[0].len() == n);
        let mut p: usize = 0;
        while p < self.parity_shards
            invariant
                self.wf(),
                self.is_enabled(),
                p <= self.parity_shards,
                data == slices(input@),
                e == self.parity_rows(),
                k == self.data_count(),
                data.len() == k,
                n == data[0].len(),
                forall|t: int| 0 <= t < k ==> n <= (#[trigger] data[t]).len(),
                output@.len() == p,
                forall|t: int|
                    0 <= t < p ==> #[trigger] matrix::rows(output@)[t] == parity_shard(e, data, t, n as nat),
            decreases self.parity_shards - p,
        {
            let mut parity: Vec<u8> = Vec::with_capacity(n);
            let mut b: usize = 0;
            assert(e[p as int].len() == k);
            while b < n
                invariant
                    b <= n,
                    p < self.parity_shards,
                    e == self.parity_rows(),
                    k == self.data_count(),
                    e[p as int].len() == k,
                    self.parity_count() == e.len(),
                    data == slices(input@),
                    data.len() == k,
                    forall|t: int| 0 <= t < k ==> n <= (#[trigger] data[t]).len(),
                    parity@ == parity_shard(e, data, p as int, n as nat).take(b as int),
                decreases n - b,
            {
                let mut sum: u8 = 0;
                let mut d: usize = 0;
                while d < input.len()
                    invariant
                        d <= input@.len(),
                        b < n,
                        p < self.parity_shards,
                        e == self.parity_rows(),
                        k == self.data_count(),
                        e[p as int].len() == k,
                        self.parity_count() == e.len(),
                        data == slices(input@),
                        data.len() == k,
                        forall|t: int| 0 <= t < k ==> n <= (#[trigger] data[t]).len(),
                        sum == matrix::dot(e[p as int], matrix::column(data, b as int), d as nat),
                    decreases input@.len() - d,
                {
                    assert(n <= data[d as int].len());
                    let shard = input[d];
                    sum = sum ^ gf256::mul(self.encode_matrix[p][d], shard[b]);
                    d += 1;
                }
                parity.push(sum);
                b += 1;
                assert(parity@ =~= parity_shard(e, data, p as int, n as nat).take(b as int));
            }
            assert(parity@ =~= parity_shard(e, data, p as int, n as nat));
            let ghost before = matrix::rows(output@);
            output.push(parity);
            proof {
                assert(matrix::rows(output@) =~= before.push(parity@));
                assert forall|t: int| 0 <= t < p + 1 implies #[trigger] matrix::rows(output@)[t]
                    == parity_shard(e, data, t, n as nat) by {
                    if t < p {
                        assert(before[t] == parity_shard(e, data, t, n as nat));
                    }
                }
            }
            p += 1;
        }
        output
    }

    /// Encode data shards into output shards (data + parity).
    ///
    /// `input`: `data_shards` byte slices, none shorter than the first.
    /// Returns `total_shards` vectors: copies of the input, then the parity
    /// shards over the length of the first. Where FEC is disabled the input is
    /// copied.
    pub fn encode(&self, input: &[&[u8]]) -> (r: Vec<Vec<u8>>)
        requires
            self.wf(),
            self.is_enabled() ==> input@.len() == self.data_count(),
            self.is_enabled() ==> forall|i: int|
                0 <= i < input@.len() ==> slices(input@)[0].len() <= (#[trigger] slices(
                    input@,
                )[i]).len(),
        ensures
            !self.is_enabled() ==> matrix::rows(r@) == slices(input@),
            self.is_enabled() ==> {
                &&& r@.len() == self.data_count() + self.parity_count()
                &&& matrix::rows(r@).take(input@.len() as int) == slices(input@)
                &&& forall|i: int|
                    0 <= i < self.parity_count() ==> #[trigger] matrix::rows(r@)[self.data_count() + i]
                        == parity_shard(
                        self.parity_rows(),
                        slices(input@),
                        i,
                        slices(input@)[0].len(),
                    )
            },
    {
        let mut output: Vec<Vec<u8>> = Vec::with_capacity(input.len());
        let mut i: usize = 0;
        while i < input.len()
            invariant
                i <= input@.len(),
                matrix::rows(output@) == slices(input@).take(i as int),
            decreases input@.len() - i,
        {
            let ghost before = matrix::rows(output@);
            output.push(slice_to_vec(input[i]));
            assert(matrix::rows(output@) =~= before.push(slices(input@)[i as int]));
            i += 1;
            assert(matrix::rows(output@) =~= slices(input@).take(i as int));
        }
        assert(matrix::rows(output@) =~= slices(input@));
        let mut parity = self.encode_parity(input);
        let ghost shards = matrix::rows(output@);
        let ghost more = matrix::rows(parity@);
        output.append(&mut parity);
        assert(matrix::rows(output@) =~= shards + more);
        assert(matrix::rows(output@).take(input@.len() as int) =~= slices(input@));
        proof {
            assert forall|j: int| 0 <= j < more.len() implies #[trigger] matrix::rows(output@)[shards.len()
                + j] == more[j] by {}
        }
        output
    }

    /// Decode: reconstruct missing data shards from available ones.
    ///
    /// `shards`: `total_shards` entries, `Some(data)` if present, `None` if
    /// missing. Returns true if reconstruction succeeded (enough
    /// shards available, the first of them not empty). Parity shards are not
    /// reconstructed. Where FEC is disabled nothing is done.
    pub fn decode(&self, shards: &mut [Option<Vec<u8>>]) -> (r: bool)
        requires
            self.wf(),
            self.is_enabled() ==> legible(self.parity_rows(), self.data_count(), old(shards)@),
        ensures
            !self.is_enabled() ==> r,
            self.is_enabled() ==> r == decodable(
                self.parity_rows(),
                self.data_count(),
                old(shards)@,
            ),
            !self.is_enabled() || !r ==> final(shards)@ == old(shards)@,
            self.is_enabled() && r ==> reconstructed(
                self.parity_rows(),
                self.data_count(),
                old(shards)@,
                final(shards)@,
            ),
    {
        if !self.enabled() {
            return true;
        }
        let ghost before = shards@;
        let ghost e = self.parity_rows();
        let ghost k = self.data_count();
        let n = first_present_len(shards);
        if n == 0 {
            return false;
        }
        let picked = select_shards(shards, self.data_shards);
        if picked.len() < self.data_shards {
            return false;
        }
        proof {
            lemma_selected(before, k);
        }
        // The square system of the selected shards.
        let ghost q = selected(before, k);
        let ghost m = selected_rows(e, k, before);
        let mut system: Vec<Vec<u8>> = Vec::with_capacity(self.data_shards);
        let mut t: usize = 0;
        while t < self.data_shards
            invariant
                self.wf(),
                self.is_enabled(),
                t <= self.data_shards,
                e == self.parity_rows(),
                k == self.data_count(),
                q == selected(before, k),
                m == selected_rows(e, k, before),
                picked@.len() == k,
                q.len() == k,
                forall|u: int| 0 <= u < k ==> picked@[u] == #[trigger] q[u],
                forall|u: int| 0 <= u < k ==> 0 <= #[trigger] q[u] < k + self.parity_count(),
                system.len() == t,
                forall|u: int| 0 <= u < t ==> (#[trigger] system[u])@ == m[u],
            decreases self.data_shards - t,
        {
            assert(picked@[t as int] == q[t as int]);
            let row = self.code_row_of(picked[t]);
            system.push(row);
            t += 1;
        }
        assert(matrix::rows(system@) =~= m);
        assert(matrix::covers(matrix::rows(system@), k)) by {
            assert forall|u: int| 0 <= u < k implies (#[trigger] m[u]).len() == k by {
                assert(0 <= q[u] < k + self.parity_count());
            }
        }
        let inv = match invert_matrix(system.as_slice()) {
            Some(inv) => inv,
            None => {
                return false;
            },
        };
        let ghost iv = matrix::rows(inv@);
        // Each missing data shard from the inverse and the selected shards.
        let mut i: usize = 0;
        while i < self.data_shards
            invariant
                self.wf(),
                self.is_enabled(),
                i <= self.data_shards,
                e == self.parity_rows(),
                k == self.data_count(),
                q == selected(before, k),
                picked@.len() == k,
                q.len() == k,
                k <= before.len(),
                forall|u: int| 0 <= u < k ==> picked@[u] == #[trigger] q[u],
                forall|u: int|
                    0 <= u < k ==> 0 <= #[trigger] q[u] < before.len() && before[q[u]] is Some,
                all_data(before, k) || forall|u: int|
                    0 <= u < k ==> n <= before[#[trigger] q[u]]->0@.len(),
                iv == matrix::rows(inv@),
                matrix::square(iv, k),
                shards@.len() == before.len(),
                forall|u: int|
                    0 <= u < before.len() && (i <= u || before[u] is Some) ==> #[trigger] shards@[u]
                        == before[u],
                forall|u: int|
                    0 <= u < i && before[u] is None ==> (#[trigger] shards@[u]) is Some
                        && shards@[u]->0@.len() == n,
                forall|u: int, b: int|
                    #![trigger shards@[u]->0@[b]]
                    0 <= u < i && before[u] is None && 0 <= b < n ==> shards@[u]->0@[b] == matrix::dot(
                        iv[u],
                        read_bytes(before, k, b),
                        k,
                    ),
            decreases self.data_shards - i,
        {
            if shards[i].is_none() {
                assert(before[i as int] is None);
                let mut reconstructed: Vec<u8> = Vec::with_capacity(n);
                let mut b: usize = 0;
                while b < n
                    invariant
                        b <= n,
                        i < self.data_shards,
                        k == self.data_count(),
                        q == selected(before, k),
                        picked@.len() == k,
                        q.len() == k,
                        forall|u: int| 0 <= u < k ==> picked@[u] == #[trigger] q[u],
                        forall|u: int|
                            0 <= u < k ==> 0 <= #[trigger] q[u] < before.len()
                                && before[q[u]] is Some,
                        forall|u: int|
                            0 <= u < k ==> n <= before[#[trigger] q[u]]->0@.len(),
                        iv == matrix::rows(inv@),
                        matrix::square(iv, k),
                        shards@.len() == before.len(),
                        forall|u: int|
                            0 <= u < before.len() && before[u] is Some ==> #[trigger] shards@[u]
                                == before[u],
                        reconstructed.len() == b,
                        forall|c: int|
                            0 <= c < b ==> #[trigger] reconstructed[c] == matrix::dot(
                                iv[i as int],
                                read_bytes(before, k, c),
                                k,
                            ),
                    decreases n - b,
                {
                    let mut sum: u8 = 0;
                    let mut t: usize = 0;
                    while t < self.data_shards
                        invariant
                            b < n,
                            t <= self.data_shards,
                            i < self.data_shards,
                            k == self.data_count(),
                            q == selected(before, k),
                            picked@.len() == k,
                            q.len() == k,
                            forall|u: int| 0 <= u < k ==> picked@[u] == #[trigger] q[u],
                            forall|u: int|
                                0 <= u < k ==> 0 <= #[trigger] q[u] < before.len()
                                    && before[q[u]] is Some,
                            forall|u: int|
                                0 <= u < k ==> n <= before[#[trigger] q[u]]->0@.len(),
                            iv == matrix::rows(inv@),
                            matrix::square(iv, k),
                            shards@.len() == before.len(),
                            forall|u: int|
                                0 <= u < before.len() && before[u] is Some ==> #[trigger] shards@[u]
                                    == before[u],
                            sum == matrix::dot(iv[i as int], read_bytes(before, k, b as int), t as nat),
                        decreases self.data_shards - t,
                    {
                        assert(picked@[t as int] == q[t as int]);
                        assert(iv[i as int].len() == k);
                        assert(shards@[q[t as int]] == before[q[t as int]]);
                        if let Some(shard) = &shards[picked[t]] {
                            sum = sum ^ gf256::mul(inv[i][t], shard[b]);
                        }
                        t += 1;
                    }
                    reconstructed.push(sum);
                    b += 1;
                }
                shards[i] = Some(reconstructed);
            }
            i += 1;
        }
        proof {
            assert forall|b: int, t: int|
                #![trigger matrix::dot(m[t], data_column(shards@, k, b), k)]
                0 <= b < n && 0 <= t < k implies matrix::dot(m[t], data_column(shards@, k, b), k)
                == before[q[t]]->0@[b] by {
                let y = read_bytes(before, k, b);
                let d = matrix::times(iv, y, k);
                matrix::lemma_identity_undoes(m, iv, y, k);
                assert(data_column(shards@, k, b) =~= d) by {
                    assert forall|u: int| 0 <= u < k implies data_column(shards@, k, b)[u]
                        == d[u] by {
                        if before[u] is Some {
                            assert(q.contains(u));
                            let w = choose|w: int| 0 <= w < q.len() && q[w] == u;
                            assert(matrix::times(m, d, k)[w] == y[w]);
                            assert(m[w] == code_row(e, k, u));
                            matrix::lemma_dot_unit(m[w], d, u, k);
                        } else {
                            assert(shards@[u]->0@[b] == matrix::dot(iv[u], y, k));
                        }
                    }
                }
                assert(matrix::times(m, d, k)[t] == y[t]);
            }
        }
        true
    }

    /// The code's row of shard `i`.
    fn code_row_of(&self, i: usize) -> (row: Vec<u8>)
        requires
            self.wf(),
            self.is_enabled(),
            i < self.data_count() + self.parity_count(),
        ensures
            row@ == code_row(self.parity_rows(), self.data_count(), i as int),
            row@.len() == self.data_count(),
    {
        if i < self.data_shards {
            let mut row: Vec<u8> = Vec::with_capacity(self.data_shards);
            let mut c: usize = 0;
            while c < self.data_shards
                invariant
                    i < self.data_shards,
                    c <= self.data_shards,
                    row.len() == c,
                    forall|u: int| 0 <= u < c ==> row[u] == (if u == i {
                        1u8
                    } else {
                        0u8
                    }),
                decreases self.data_shards - c,
            {
                row.push(if c == i {
                    1
                } else {
                    0
                });
                c += 1;
            }
            assert(row@ =~= code_row(self.parity_rows(), self.data_count(), i as int));
            row
        } else {
            let row = self.encode_matrix[i - self.data_shards].clone();
            assert(row@ =~= self.parity_rows()[i - self.data_shards]);
            row
        }
    }
}

/// The bytes at `b` of the selected shards.
spec fn read_bytes(s: Seq<Option<Vec<u8>>>, k: nat, b: int) -> Seq<u8> {
    Seq::new(k, |t: int| s[selected(s, k)[t]]->0@[b])
}

/// The length of the first shard that is present, 0 without any.
fn first_present_len(shards: &[Option<Vec<u8>>]) -> (n: usize)
    ensures
        n == block_size(shards@),
{
    let ghost s = shards@;
    let mut i: usize = 0;
    while i < shards.len()
        invariant
            i <= shards@.len(),
            s == shards@,
            present(s, 0, i as int).len() == 0,
        decreases shards@.len() - i,
    {
        if let Some(v) = &shards[i] {
            proof {
                lemma_present_split(s, 0, i + 1, s.len() as int);
                assert(present(s, 0, i + 1)[0] == i);
            }
            return v.len();
        }
        i += 1;
    }
    0
}

/// The shards that a reconstruction reads, at most `k`.
fn select_shards(shards: &[Option<Vec<u8>>], k: usize) -> (picked: Vec<usize>)
    ensures
        picked@.len() <= k,
        picked@.len() < k <==> present(shards@, 0, shards@.len() as int).len() < k,
        picked@.len() == k ==> selected(shards@, k as nat).len() == k && forall|u: int|
            0 <= u < k ==> picked@[u] == #[trigger] selected(shards@, k as nat)[u],
{
    let ghost s = shards@;
    let ghost len = shards@.len() as int;
    let mut picked: Vec<usize> = Vec::with_capacity(k);
    let mut i: usize = 0;
    while i < shards.len() && picked.len() < k
        invariant
            s == shards@,
            len == s.len(),
            i <= len,
            picked@.len() <= k,
            picked_are(picked@, present(s, 0, i as int)),
        decreases len - i,
    {
        if shards[i].is_some() {
            picked.push(i);
        }
        i += 1;
        proof {
            assert(picked_are(picked@, present(s, 0, i as int)));
        }
    }
    proof {
        lemma_present_split(s, 0, i as int, len);
        if len >= k {
            lemma_present_split(s, 0, k as int, len);
        } else {
            lemma_present(s, 0, len);
        }
    }
    picked
}

/// The indices `a` are the numbers `b`.
spec fn picked_are(a: Seq<usize>, b: Seq<int>) -> bool {
    &&& a.len() == b.len()
    &&& forall|u: int| 0 <= u < b.len() ==> a[u] == #[trigger] b[u]
}

/// The powers of `r` below `n`.
fn vandermonde_row(r: usize, n: usize) -> (row: Vec<u8>)
    requires
        n <= 256,
    ensures
        row@ == matrix::powers(node(r as int), n as nat),
{
    let x: u8 = (r % 256) as u8;
    let mut row: Vec<u8> = Vec::with_capacity(n);
    let mut c: usize = 0;
    while c < n
        invariant
            c <= n <= 256,
            x == node(r as int),
            row@ == matrix::powers(x, n as nat).take(c as int),
        decreases n - c,
    {
        row.push(gf256::pow(x, c as u32));
        c += 1;
        assert(row@ =~= matrix::powers(x, n as nat).take(c as int));
    }
    assert(row@ =~= matrix::powers(x, n as nat));
    row
}

// ── XOR layer ───────────────────────────────────────────────────────────

/// `data` XORed with the key, repeated; `data` itself for an empty key.
pub open spec fn xored(data: Seq<u8>, key: Seq<u8>) -> Seq<u8> {
    if key.len() == 0 {
        data
    } else {
        Seq::new(data.len(), |i: int| data[i] ^ key[i % (key.len() as int)])
    }
}

/// XORing twice with one key changes nothing.
pub proof fn law_xor_is_an_involution(data: Seq<u8>, key: Seq<u8>)
    ensures
        xored(xored(data, key), key) == data,
{
    let twice = xored(xored(data, key), key);
    assert forall|i: int| 0 <= i < data.len() implies twice[i] == data[i] by {
        if key.len() > 0 {
            let (a, b) = (data[i], key[i % (key.len() as int)]);
            assert((a ^ b) ^ b == a) by (bit_vector);
        }
    }
    assert(twice =~= data);
}

/// XOR block cipher matching kcp-go's XorBlock: a simple repeating-key XOR.
pub struct XorBlock {
    key: Vec<u8>,
}

impl XorBlock {
    pub closed spec fn key(&self) -> Seq<u8> {
        self.key@
    }

    pub fn new(key: &[u8]) -> (r: XorBlock)
        ensures
            r.key() == key@,
    {
        XorBlock { key: slice_to_vec(key) }
    }

    /// XOR encrypt/decrypt in place (symmetric operation).
    pub fn process(&self, data: &mut [u8])
        ensures
            final(data)@ == xored(old(data)@, self.key()),
    {
        if self.key.len() == 0 {
            return;
        }
        let ghost before = data@;
        let mut i: usize = 0;
        while i < data.len()
            invariant
                self.key@.len() > 0,
                i <= data@.len(),
                data@.len() == before.len(),
                forall|j: int| 0 <= j < i ==> #[trigger] data@[j] == xored(before, self.key@)[j],
                forall|j: int| i <= j < data@.len() ==> #[trigger] data@[j] == before[j],
            decreases data@.len() - i,
        {
            data[i] = data[i] ^ self.key[i % self.key.len()];
            i += 1;
        }
        assert(data@ =~= xored(before, self.key@));
    }

    /// Check if encryption is configured (non-empty key).
    pub fn enabled(&self) -> (r: bool)
        ensures
            r == (self.key().len() > 0),
    {
        self.key.len() > 0
    }
}

// ── session ─────────────────────────────────────────────────────────────

/// The size of each of `k` equal blocks that hold `n` bytes.
pub open spec fn block_len(n: nat, k: nat) -> nat {
    (if n % k == 0 {
        n / k
    } else {
        n / k + 1
    }) as nat
}

/// Byte `j` of `data`, 0 behind its end.
pub open spec fn byte_or_zero(data: Seq<u8>, j: int) -> u8 {
    if j < data.len() {
        data[j]
    } else {
        0
    }
}

/// Block `i` of `data` split into `k` equal blocks, padded with zeros.
pub open spec fn block(data: Seq<u8>, k: nat, i: int) -> Seq<u8> {
    Seq::new(
        block_len(data.len(), k),
        |b: int| byte_or_zero(data, i * block_len(data.len(), k) + b),
    )
}

/// The blocks of `data`, each XORed with the key from its start.
pub open spec fn masked_blocks(data: Seq<u8>, k: nat, key: Seq<u8>) -> Seq<Seq<u8>> {
    Seq::new(k, |i: int| xored(block(data, k, i), key))
}

/// `s` without its trailing zeros.
pub open spec fn without_trailing_zeros(s: Seq<u8>) -> Seq<u8>
    decreases s.len(),
{
    if s.len() > 0 && s.last() == 0 {
        without_trailing_zeros(s.drop_last())
    } else {
        s
    }
}

/// The first `n` shards, one behind the other.
pub open spec fn joined(s: Seq<Option<Vec<u8>>>, n: nat) -> Seq<u8>
    decreases n,
{
    if n == 0 {
        Seq::empty()
    } else {
        joined(s, (n - 1) as nat) + s[n - 1]->0@
    }
}

/// `after` is `before` with its first `n` shards XORed with the key.
pub open spec fn unmasked(
    before: Seq<Option<Vec<u8>>>,
    after: Seq<Option<Vec<u8>>>,
    n: nat,
    key: Seq<u8>,
) -> bool {
    &&& after.len() == before.len()
    &&& forall|i: int|
        0 <= i < n ==> (#[trigger] after[i]) is Some && after[i]->0@ == xored(before[i]->0@, key)
    &&& forall|i: int| n <= i < before.len() ==> #[trigger] after[i] == before[i]
}

/// The data shards of `before`, reconstructed and unmasked, are those of `after`.
pub open spec fn unpacked(
    e: Seq<Seq<u8>>,
    k: nat,
    key: Seq<u8>,
    before: Seq<Option<Vec<u8>>>,
    after: Seq<Option<Vec<u8>>>,
) -> bool {
    exists|mid: Seq<Option<Vec<u8>>>| #[trigger]
        reconstructed(e, k, before, mid) && unmasked(mid, after, k, key)
}

proof fn lemma_strip_padding(data: Seq<u8>, s: Seq<u8>)
    requires
        data.len() > 0,
        data.last() != 0,
        s.len() >= data.len(),
        s.take(data.len() as int) == data,
        forall|j: int| data.len() <= j < s.len() ==> s[j] == 0,
    ensures
        without_trailing_zeros(s) == data,
    decreases s.len(),
{
    if s.len() == data.len() {
        assert(s =~= data);
    } else {
        assert(s.drop_last().take(data.len() as int) =~= data);
        lemma_strip_padding(data, s.drop_last());
    }
}

proof fn lemma_block_len(n: nat, k: nat)
    requires
        k > 0,
    ensures
        n <= k * block_len(n, k),
        n > 0 ==> block_len(n, k) > 0,
{
    vstd::arithmetic::div_mod::lemma_fundamental_div_mod(n as int, k as int);
    let q = n / k;
    assert(k * (q + 1) == k * q + k) by (nonlinear_arith);
    assert(k * q == k * (n as int / k as int));
    if n > 0 && q == 0 {
        assert(k * q == 0) by (nonlinear_arith)
            requires
                q == 0,
        ;
    }
}

proof fn lemma_joined_blocks(data: Seq<u8>, k: nat, s: Seq<Option<Vec<u8>>>, n: nat)
    requires
        k > 0,
        n <= k,
        forall|i: int| 0 <= i < k ==> (#[trigger] s[i]) is Some && s[i]->0@ == block(data, k, i),
    ensures
        joined(s, n) == Seq::new(n * block_len(data.len(), k), |j: int| byte_or_zero(data, j)),
    decreases n,
{
    let b = block_len(data.len(), k);
    let whole = Seq::new(n * b, |j: int| byte_or_zero(data, j));
    if n == 0 {
        assert(n * b == 0) by (nonlinear_arith)
            requires
                n == 0,
        ;
        assert(joined(s, n) =~= whole);
    } else {
        let n1 = (n - 1) as nat;
        lemma_joined_blocks(data, k, s, n1);
        assert(s[n - 1] is Some);
        assert(n * b == n1 * b + b) by (nonlinear_arith)
            requires
                n == n1 + 1,
        ;
        let first = Seq::new(n1 * b, |j: int| byte_or_zero(data, j));
        assert(joined(s, n) =~= first + block(data, k, n - 1));
        assert forall|j: int| 0 <= j < n * b implies joined(s, n)[j] == whole[j] by {
            if j >= n1 * b {
                assert(block(data, k, n - 1)[j - n1 * b] == byte_or_zero(data, j));
            }
        }
        assert(joined(s, n) =~= whole);
    }
}

/// A packet comes back whole from any `k` of its shards, whatever the key:
/// what `encode_packet` made, reconstructed and joined, is the packet. (A
/// packet that ends in a zero byte loses its trailing zeros to the padding.)
pub proof fn law_packet_roundtrip(
    e: Seq<Seq<u8>>,
    k: nat,
    p: nat,
    key: Seq<u8>,
    data: Seq<u8>,
    before: Seq<Option<Vec<u8>>>,
    after: Seq<Option<Vec<u8>>>,
)
    requires
        parity_code(e, k, p),
        0 < k,
        k + p <= 256,
        data.len() > 0,
        data.last() != 0,
        before.len() <= k + p,
        present(before, 0, before.len() as int).len() >= k,
        forall|i: int|
            0 <= i < before.len() && (#[trigger] before[i]) is Some ==> before[i]->0@ == (if i < k {
                masked_blocks(data, k, key)[i]
            } else {
                parity_shard(
                    e,
                    masked_blocks(data, k, key),
                    i - k,
                    block_len(data.len(), k),
                )
            }),
        unpacked(e, k, key, before, after),
    ensures
        decodable(e, k, before),
        without_trailing_zeros(joined(after, k)) == data,
{
    let b = block_len(data.len(), k);
    let masked = masked_blocks(data, k, key);
    let mid = choose|mid: Seq<Option<Vec<u8>>>| #[trigger]
        reconstructed(e, k, before, mid) && unmasked(mid, after, k, key);
    lemma_block_len(data.len(), k);
    law_reconstruction_recovers_data(e, k, p, masked, b, before, mid);
    law_any_k_shards_suffice(e, k, p, before);
    lemma_present(before, 0, before.len() as int);
    assert(before[present(before, 0, before.len() as int)[0]] is Some);
    assert(block_size(before) == b);
    assert forall|i: int| 0 <= i < k implies (#[trigger] after[i]) is Some && after[i]->0@ == block(
        data,
        k,
        i,
    ) by {
        assert(mid[i]->0@ == masked[i]);
        law_xor_is_an_involution(block(data, k, i), key);
    }
    lemma_joined_blocks(data, k, after, k);
    let s = joined(after, k);
    assert(s.take(data.len() as int) =~= data);
    lemma_strip_padding(data, s);
}

/// KCP compatibility session combining FEC + XOR layers.
///
/// Usage:
/// 1. Create with desired FEC/XOR parameters (matching peer's config)
/// 2. Call `encode_packet()` before sending raw KCP data
/// 3. Call `decode_packets()` on received raw KCP data
pub struct KcpCompatSession {
    fec: Fec,
    xor: XorBlock,
}

impl KcpCompatSession {
    pub closed spec fn fec(&self) -> Fec {
        self.fec
    }

    pub closed spec fn key(&self) -> Seq<u8> {
        self.xor.key()
    }

    pub open spec fn wf(&self) -> bool {
        self.fec().wf()
    }

    /// Create a new compat session.
    /// `data_shards`, `parity_shards`: FEC parameters (0,0 to disable)
    /// `key`: XOR key (empty to disable)
    pub fn new(data_shards: usize, parity_shards: usize, key: &[u8]) -> (r: KcpCompatSession)
        requires
            data_shards + parity_shards <= usize::MAX,
            data_shards > 0 && parity_shards > 0 ==> data_shards <= 256,
        ensures
            r.wf(),
            r.fec().data_count() == data_shards,
            r.fec().parity_count() == parity_shards,
            r.key() == key@,
    {
        KcpCompatSession { fec: Fec::new(data_shards, parity_shards), xor: XorBlock::new(key) }
    }

    /// Check if FEC is enabled.
    pub fn fec_enabled(&self) -> (r: bool)
        ensures
            r == self.fec().is_enabled(),
    {
        self.fec.enabled()
    }

    /// Check if XOR encryption is enabled.
    pub fn xor_enabled(&self) -> (r: bool)
        ensures
            r == (self.key().len() > 0),
    {
        self.xor.enabled()
    }

    /// Encode a single data packet for sending.
    ///
    /// If FEC enabled: splits into data_shards + parity_shards, returns all shards.
    /// If XOR enabled: applies XOR before FEC.
    /// If neither: returns the input as-is (single shard).
    pub fn encode_packet(&self, data: &[u8]) -> (r: Vec<Vec<u8>>)
        requires
            self.wf(),
        ensures
            !self.fec().is_enabled() ==> matrix::rows(r@) == seq![xored(data@, self.key())],
            self.fec().is_enabled() ==> {
                let k = self.fec().data_count();
                let masked = masked_blocks(data@, k, self.key());
                &&& r@.len() == k + self.fec().parity_count()
                &&& matrix::rows(r@).take(k as int) == masked
                &&& forall|i: int|
                    0 <= i < self.fec().parity_count() ==> #[trigger] matrix::rows(r@)[k + i]
                        == parity_shard(
                        self.fec().parity_rows(),
                        masked,
                        i,
                        block_len(data@.len(), k),
                    )
            },
    {
        if !self.fec.enabled() {
            let mut d = slice_to_vec(data);
            self.xor.process(d.as_mut_slice());
            let mut out: Vec<Vec<u8>> = Vec::new();
            out.push(d);
            assert(matrix::rows(out@) =~= seq![xored(data@, self.key())]);
            return out;
        }
        let ghost k = self.fec.data_count();
        let ghost masked = masked_blocks(data@, k, self.key());
        let d = self.fec.data_shards;
        proof {
            let n = data@.len() as int;
            if d >= 2 {
                assert(n / (d as int) <= n / 2) by (nonlinear_arith)
                    requires
                        n >= 0,
                        d >= 2,
                ;
            }
        }
        let size: usize = if data.len() % d == 0 {
            data.len() / d
        } else {
            data.len() / d + 1
        };
        let mut shards: Vec<Vec<u8>> = Vec::with_capacity(d);
        let mut i: usize = 0;
        let mut pos: usize = 0;
        while i < d
            invariant
                d == self.fec.data_shards,
                k == d,
                d > 0,
                size == block_len(data@.len(), k),
                masked == masked_blocks(data@, k, self.key()),
                i <= d,
                pos <= data@.len(),
                i * size <= data@.len() ==> pos == i * size,
                i * size > data@.len() ==> pos == data@.len(),
                matrix::rows(shards@) == masked.take(i as int),
            decreases d - i,
        {
            let mut shard: Vec<u8> = Vec::with_capacity(size);
            let mut b: usize = 0;
            let ghost from = i * size;
            while b < size
                invariant
                    k == d,
                    i < d,
                    size == block_len(data@.len(), k),
                    from == i * size,
                    b <= size,
                    pos <= data@.len(),
                    from + b <= data@.len() ==> pos == from + b,
                    from + b > data@.len() ==> pos == data@.len(),
                    shard@ == block(data@, k, i as int).take(b as int),
                decreases size - b,
            {
                if pos < data.len() {
                    shard.push(data[pos]);
                    pos += 1;
                } else {
                    shard.push(0);
                }
                b += 1;
                assert(shard@ =~= block(data@, k, i as int).take(b as int));
            }
            assert(shard@ =~= block(data@, k, i as int));
            self.xor.process(shard.as_mut_slice());
            let ghost before = matrix::rows(shards@);
            shards.push(shard);
            assert(matrix::rows(shards@) =~= before.push(masked[i as int]));
            assert((i + 1) * size == i * size + size) by (nonlinear_arith);
            i += 1;
            assert(matrix::rows(shards@) =~= masked.take(i as int));
        }
        let mut refs: Vec<&[u8]> = Vec::with_capacity(d);
        let mut j: usize = 0;
        while j < shards.len()
            invariant
                j <= shards@.len(),
                slices(refs@) == matrix::rows(shards@).take(j as int),
            decreases shards@.len() - j,
        {
            let ghost before = slices(refs@);
            refs.push(shards[j].as_slice());
            assert(slices(refs@) =~= before.push(matrix::rows(shards@)[j as int]));
            j += 1;
            assert(slices(refs@) =~= matrix::rows(shards@).take(j as int));
        }
        assert(slices(refs@) =~= masked);
        self.fec.encode(refs.as_slice())
    }

    /// Decode received packets, reconstructing original data.
    ///
    /// `shards`: received shards (may have gaps/fewer than total).
    /// Returns the reconstructed data bytes, without trailing zeros where FEC
    /// is enabled (its padding is zeros).
    pub fn decode_packets(&self, shards: &mut [Option<Vec<u8>>]) -> (r: Option<Vec<u8>>)
        requires
            self.wf(),
            !self.fec().is_enabled() ==> old(shards)@.len() > 0,
            self.fec().is_enabled() ==> legible(
                self.fec().parity_rows(),
                self.fec().data_count(),
                old(shards)@,
            ),
        ensures
            !self.fec().is_enabled() ==> {
                &&& r is Some <==> old(shards)@[0] is Some
                &&& r matches Some(data) ==> data@ == xored(old(shards)@[0]->0@, self.key())
                &&& final(shards)@ == old(shards)@.update(0, None)
            },
            self.fec().is_enabled() ==> {
                &&& r is Some <==> decodable(
                    self.fec().parity_rows(),
                    self.fec().data_count(),
                    old(shards)@,
                )
                &&& r is None ==> final(shards)@ == old(shards)@
                &&& r matches Some(data) ==> {
                    &&& unpacked(
                        self.fec().parity_rows(),
                        self.fec().data_count(),
                        self.key(),
                        old(shards)@,
                        final(shards)@,
                    )
                    &&& data@ == without_trailing_zeros(
                        joined(final(shards)@, self.fec().data_count()),
                    )
                }
            },
    {
        let ghost start = shards@;
        if !self.fec.enabled() {
            let first = take_shard(shards, 0);
            return match first {
                Some(v) => {
                    let mut data = v;
                    self.xor.process(data.as_mut_slice());
                    Some(data)
                },
                None => None,
            };
        }
        let ghost e = self.fec.parity_rows();
        let ghost k = self.fec.data_count();
        if !self.fec.decode(shards) {
            return None;
        }
        let ghost mid = shards@;
        proof {
            lemma_selected(start, k);
            assert forall|i: int| 0 <= i < k implies (#[trigger] mid[i]) is Some by {
                if start[i] is Some {
                    assert(mid[i] == start[i]);
                }
            }
        }
        let d = self.fec.data_shards;
        let mut i: usize = 0;
        let mut data: Vec<u8> = Vec::new();
        while i < d
            invariant
                d == self.fec.data_shards,
                k == d,
                i <= d,
                k <= mid.len(),
                shards@.len() == mid.len(),
                forall|j: int| 0 <= j < k ==> (#[trigger] mid[j]) is Some,
                forall|j: int|
                    0 <= j < i ==> (#[trigger] shards@[j]) is Some && shards@[j]->0@ == xored(
                        mid[j]->0@,
                        self.key(),
                    ),
                forall|j: int| i <= j < mid.len() ==> #[trigger] shards@[j] == mid[j],
                data@ == joined(shards@, i as nat),
            decreases d - i,
        {
            assert(mid[i as int] is Some);
            let ghost before = shards@;
            if let Some(v) = take_shard(shards, i) {
                let mut shard = v;
                self.xor.process(shard.as_mut_slice());
                data.extend_from_slice(shard.as_slice());
                shards[i] = Some(shard);
                proof {
                    lemma_joined_same(before, shards@, i as nat);
                    assert(data@ =~= joined(shards@, i as nat) + shard@);
                }
            }
            i += 1;
        }
        assert(unmasked(mid, shards@, k, self.key()));
        while data.len() > 0 && data[data.len() - 1] == 0
            invariant
                without_trailing_zeros(data@) == without_trailing_zeros(joined(shards@, k)),
            decreases data@.len(),
        {
            let ghost before = data@;
            data.pop();
            assert(data@ =~= before.drop_last());
        }
        Some(data)
    }
}

/// Takes shard `i` out of `shards`.
fn take_shard(shards: &mut [Option<Vec<u8>>], i: usize) -> (r: Option<Vec<u8>>)
    requires
        i < old(shards)@.len(),
    ensures
        r == old(shards)@[i as int],
        final(shards)@ == old(shards)@.update(i as int, None),
{
    let mut out: Option<Vec<u8>> = None;
    std::mem::swap(&mut out, &mut shards[i]);
    out
}

proof fn lemma_joined_same(a: Seq<Option<Vec<u8>>>, b: Seq<Option<Vec<u8>>>, n: nat)
    requires
        forall|j: int| 0 <= j < n ==> a[j] == b[j],
    ensures
        joined(a, n) == joined(b, n),
    decreases n,
{
    if n > 0 {
        lemma_joined_same(a, b, (n - 1) as nat);
    }
}

/// The key repeats: zeros become the key, over and over.
pub proof fn law_key_repeats(key: Seq<u8>, n: nat, i: int, j: int)
    requires
        key.len() > 0,
        0 <= j < key.len(),
        0 <= i,
        i * key.len() + j < n,
    ensures
        xored(Seq::new(n, |k: int| 0u8), key).len() == n,
        xored(Seq::new(n, |k: int| 0u8), key)[i * key.len() + j] == key[j],
        xored(Seq::new(n, |k: int| 0u8), Seq::empty()) == Seq::new(n, |k: int| 0u8),
{
    let m = key.len() as int;
    let at = i * m + j;
    assert(at >= 0) by (nonlinear_arith)
        requires
            at == i * m + j,
            i >= 0,
            m > 0,
            j >= 0,
    ;
    vstd::arithmetic::div_mod::lemma_mod_multiples_vanish(i, j, m);
    vstd::arithmetic::mul::lemma_mul_is_commutative(i, m);
    vstd::arithmetic::div_mod::lemma_small_mod(j as nat, m as nat);
    assert(at % m == j);
    let x = key[j];
    assert(0u8 ^ x == x) by (bit_vector);
}

} // verus!
