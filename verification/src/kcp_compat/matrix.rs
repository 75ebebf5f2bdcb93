//! Matrices over GF(2^8): products, inversion, and the Vandermonde matrices
//! that the erasure code is built from.
use vstd::prelude::*;

use super::gf256;

verus! {

/// Sum of the products of the first `n` entries.
pub open spec fn dot(x: Seq<u8>, y: Seq<u8>, n: nat) -> u8
    decreases n,
{
    if n == 0 {
        0
    } else {
        dot(x, y, (n - 1) as nat) ^ gf256::gf_mul(x[n - 1], y[n - 1])
    }
}

/// Column `j` of a matrix of rows.
pub open spec fn column(m: Seq<Seq<u8>>, j: int) -> Seq<u8> {
    Seq::new(m.len(), |i: int| m[i][j])
}

/// The rows of a vector of vectors.
pub open spec fn rows(m: Seq<Vec<u8>>) -> Seq<Seq<u8>> {
    Seq::new(m.len(), |i: int| m[i]@)
}

/// `m` has at least `n` rows, each with at least `n` entries.
pub open spec fn covers(m: Seq<Seq<u8>>, n: nat) -> bool {
    &&& m.len() >= n
    &&& forall|i: int| 0 <= i < n ==> (#[trigger] m[i]).len() >= n
}

/// `m * v` is zero in its first `n` entries.
pub open spec fn annihilates(m: Seq<Seq<u8>>, v: Seq<u8>, n: nat) -> bool {
    forall|i: int| 0 <= i < n ==> #[trigger] dot(m[i], v, n) == 0
}

pub open spec fn is_zero(v: Seq<u8>) -> bool {
    forall|k: int| 0 <= k < v.len() ==> v[k] == 0
}

/// The `n` by `n` matrix `m` maps some non-zero vector to zero.
pub open spec fn singular(m: Seq<Seq<u8>>, n: nat) -> bool {
    exists|v: Seq<u8>| #[trigger] annihilates(m, v, n) && v.len() == n && !is_zero(v)
}

/// `a * b` is the `n` by `n` identity.
pub open spec fn product_is_identity(a: Seq<Seq<u8>>, b: Seq<Seq<u8>>, n: nat) -> bool {
    forall|i: int, j: int|
        #![trigger dot(a[i], column(b, j), n)]
        0 <= i < n && 0 <= j < n ==> dot(a[i], column(b, j), n) == (if i == j {
            1u8
        } else {
            0u8
        })
}

// ── sums of products ────────────────────────────────────────────────────

proof fn lemma_xor_facts(a: u8, b: u8, c: u8, d: u8)
    ensures
        a ^ a == 0,
        a ^ 0 == a,
        0u8 ^ a == a,
        a ^ b == b ^ a,
        (a ^ b) ^ c == a ^ (b ^ c),
        (a ^ b) ^ (c ^ d) == (a ^ c) ^ (b ^ d),
        a ^ b == 0 ==> a == b,
{
    assert(a ^ a == 0 && a ^ 0 == a && 0u8 ^ a == a && a ^ b == b ^ a && (a ^ b) ^ c == a ^ (b ^ c)
        && (a ^ b) ^ (c ^ d) == (a ^ c) ^ (b ^ d) && (a ^ b == 0 ==> a == b)) by (bit_vector);
}

/// Only the first `n` entries count.
pub proof fn lemma_dot_prefix(x: Seq<u8>, y: Seq<u8>, u: Seq<u8>, w: Seq<u8>, n: nat)
    requires
        forall|k: int| 0 <= k < n ==> x[k] == u[k],
        forall|k: int| 0 <= k < n ==> y[k] == w[k],
    ensures
        dot(x, y, n) == dot(u, w, n),
    decreases n,
{
    if n > 0 {
        lemma_dot_prefix(x, y, u, w, (n - 1) as nat);
    }
}

proof fn lemma_dot_commutes(x: Seq<u8>, y: Seq<u8>, n: nat)
    ensures
        dot(x, y, n) == dot(y, x, n),
    decreases n,
{
    if n > 0 {
        lemma_dot_commutes(x, y, (n - 1) as nat);
        gf256::lemma_mul_commutes(x[n - 1], y[n - 1]);
    }
}

proof fn lemma_dot_zero(x: Seq<u8>, y: Seq<u8>, n: nat)
    requires
        forall|k: int| 0 <= k < n ==> x[k] == 0 || y[k] == 0,
    ensures
        dot(x, y, n) == 0,
    decreases n,
{
    if n > 0 {
        lemma_dot_zero(x, y, (n - 1) as nat);
        gf256::lemma_mul_units(x[n - 1]);
        gf256::lemma_mul_units(y[n - 1]);
        lemma_xor_facts(0, 0, 0, 0);
    }
}

/// The sum of products against a unit row is one entry.
pub proof fn lemma_dot_unit(x: Seq<u8>, y: Seq<u8>, p: int, n: nat)
    requires
        0 <= p < n,
        forall|k: int| 0 <= k < n ==> x[k] == (if k == p {
            1u8
        } else {
            0u8
        }),
    ensures
        dot(x, y, n) == y[p],
    decreases n,
{
    gf256::lemma_mul_units(y[n - 1]);
    lemma_xor_facts(y[p], 0, 0, 0);
    if p == n - 1 {
        lemma_dot_zero(x, y, (n - 1) as nat);
    } else {
        lemma_dot_unit(x, y, p, (n - 1) as nat);
    }
}

/// The sum of products against a unit column is one entry.
pub proof fn lemma_dot_unit_right(x: Seq<u8>, y: Seq<u8>, p: int, n: nat)
    requires
        0 <= p < n,
        forall|k: int| 0 <= k < n ==> y[k] == (if k == p {
            1u8
        } else {
            0u8
        }),
    ensures
        dot(x, y, n) == x[p],
{
    lemma_dot_commutes(x, y, n);
    lemma_dot_unit(y, x, p, n);
}

/// Products distribute over the sum of two vectors.
pub proof fn lemma_dot_sum(w: Seq<u8>, x: Seq<u8>, y: Seq<u8>, z: Seq<u8>, n: nat)
    requires
        forall|k: int| 0 <= k < n ==> #[trigger] z[k] == x[k] ^ y[k],
    ensures
        dot(w, z, n) == dot(w, x, n) ^ dot(w, y, n),
{
    lemma_dot_commutes(w, z, n);
    lemma_dot_commutes(w, x, n);
    lemma_dot_commutes(w, y, n);
    lemma_dot_add(x, y, z, w, n);
}

/// `x` with every entry multiplied by `s`.
spec fn scaled(x: Seq<u8>, s: u8) -> Seq<u8> {
    Seq::new(x.len(), |k: int| gf256::gf_mul(x[k], s))
}

/// `x + f * y`.
spec fn combined(x: Seq<u8>, f: u8, y: Seq<u8>) -> Seq<u8> {
    Seq::new(x.len(), |k: int| x[k] ^ gf256::gf_mul(f, y[k]))
}

proof fn lemma_dot_scaled(x: Seq<u8>, s: u8, v: Seq<u8>, n: nat)
    requires
        n <= x.len(),
    ensures
        dot(scaled(x, s), v, n) == gf256::gf_mul(s, dot(x, v, n)),
    decreases n,
{
    if n == 0 {
        gf256::lemma_mul_units(s);
    } else {
        lemma_dot_scaled(x, s, v, (n - 1) as nat);
        let (a, b) = (x[n - 1], v[n - 1]);
        gf256::lemma_mul_commutes(a, s);
        gf256::lemma_mul_associates(s, a, b);
        gf256::lemma_mul_distributes(dot(x, v, (n - 1) as nat), gf256::gf_mul(a, b), s);
    }
}

proof fn lemma_dot_combined(x: Seq<u8>, f: u8, y: Seq<u8>, v: Seq<u8>, n: nat)
    requires
        n <= x.len(),
        n <= y.len(),
    ensures
        dot(combined(x, f, y), v, n) == dot(x, v, n) ^ gf256::gf_mul(f, dot(y, v, n)),
    decreases n,
{
    if n == 0 {
        gf256::lemma_mul_units(f);
        lemma_xor_facts(0, 0, 0, 0);
    } else {
        lemma_dot_combined(x, f, y, v, (n - 1) as nat);
        let (a, b, c) = (x[n - 1], y[n - 1], v[n - 1]);
        let (dx, dy) = (dot(x, v, (n - 1) as nat), dot(y, v, (n - 1) as nat));
        gf256::lemma_mul_distributes(a, gf256::gf_mul(f, b), c);
        gf256::lemma_mul_associates(f, b, c);
        gf256::lemma_mul_distributes(dy, gf256::gf_mul(b, c), f);
        lemma_xor_facts(dx, gf256::gf_mul(f, dy), gf256::gf_mul(a, c), gf256::gf_mul(f, gf256::gf_mul(b, c)));
    }
}

proof fn lemma_dot_add(x: Seq<u8>, y: Seq<u8>, z: Seq<u8>, w: Seq<u8>, n: nat)
    requires
        forall|k: int| 0 <= k < n ==> #[trigger] z[k] == x[k] ^ y[k],
    ensures
        dot(z, w, n) == dot(x, w, n) ^ dot(y, w, n),
    decreases n,
{
    if n == 0 {
        lemma_xor_facts(0, 0, 0, 0);
    } else {
        lemma_dot_add(x, y, z, w, (n - 1) as nat);
        assert(z[n - 1] == x[n - 1] ^ y[n - 1]);
        gf256::lemma_mul_distributes(x[n - 1], y[n - 1], w[n - 1]);
        lemma_xor_facts(
            dot(x, w, (n - 1) as nat),
            dot(y, w, (n - 1) as nat),
            gf256::gf_mul(x[n - 1], w[n - 1]),
            gf256::gf_mul(y[n - 1], w[n - 1]),
        );
    }
}

/// `x * m` in its first `n` entries, from the first `t` entries of `x`.
spec fn row_times(x: Seq<u8>, m: Seq<Seq<u8>>, t: nat, n: nat) -> Seq<u8> {
    Seq::new(n, |j: int| dot(x, column(m, j), t))
}

/// `m * v`.
pub open spec fn times(m: Seq<Seq<u8>>, v: Seq<u8>, n: nat) -> Seq<u8> {
    Seq::new(n, |i: int| dot(m[i], v, n))
}

proof fn lemma_dot_assoc_partial(x: Seq<u8>, m: Seq<Seq<u8>>, v: Seq<u8>, t: nat, n: nat)
    requires
        t <= n,
        m.len() >= n,
    ensures
        dot(row_times(x, m, t, n), v, n) == dot(x, times(m, v, n), t),
    decreases t,
{
    if t == 0 {
        lemma_dot_zero(row_times(x, m, 0, n), v, n);
    } else {
        let t1 = (t - 1) as nat;
        lemma_dot_assoc_partial(x, m, v, t1, n);
        let a = row_times(x, m, t1, n);
        let b = Seq::new(n, |j: int| gf256::gf_mul(m[t - 1][j], x[t - 1]));
        let z = row_times(x, m, t, n);
        assert forall|j: int| 0 <= j < n implies #[trigger] z[j] == a[j] ^ b[j] by {
            assert(column(m, j)[t - 1] == m[t - 1][j]);
            gf256::lemma_mul_commutes(x[t - 1], m[t - 1][j]);
        }
        lemma_dot_add(a, b, z, v, n);
        lemma_dot_scaled_prefix(m[t - 1], x[t - 1], b, v, n);
    }
}

proof fn lemma_dot_scaled_prefix(x: Seq<u8>, s: u8, b: Seq<u8>, v: Seq<u8>, n: nat)
    requires
        forall|k: int| 0 <= k < n ==> #[trigger] b[k] == gf256::gf_mul(x[k], s),
    ensures
        dot(b, v, n) == gf256::gf_mul(s, dot(x, v, n)),
    decreases n,
{
    if n == 0 {
        gf256::lemma_mul_units(s);
    } else {
        lemma_dot_scaled_prefix(x, s, b, v, (n - 1) as nat);
        assert(b[n - 1] == gf256::gf_mul(x[n - 1], s));
        let (a, c) = (x[n - 1], v[n - 1]);
        gf256::lemma_mul_commutes(a, s);
        gf256::lemma_mul_associates(s, a, c);
        gf256::lemma_mul_distributes(dot(x, v, (n - 1) as nat), gf256::gf_mul(a, c), s);
    }
}

/// `(x * m) * v == x * (m * v)`.
pub proof fn lemma_dot_associates(x: Seq<u8>, m: Seq<Seq<u8>>, v: Seq<u8>, y: Seq<u8>, n: nat)
    requires
        m.len() >= n,
        forall|j: int| 0 <= j < n ==> #[trigger] y[j] == dot(x, column(m, j), n),
    ensures
        dot(y, v, n) == dot(x, times(m, v, n), n),
{
    lemma_dot_assoc_partial(x, m, v, n, n);
    lemma_dot_prefix(y, v, row_times(x, m, n, n), v, n);
}

/// Where `a * b` is the identity, `a * (b * v)` is `v`.
pub proof fn lemma_identity_undoes(a: Seq<Seq<u8>>, b: Seq<Seq<u8>>, v: Seq<u8>, n: nat)
    requires
        product_is_identity(a, b, n),
        b.len() >= n,
        v.len() == n,
    ensures
        times(a, times(b, v, n), n) == v,
{
    let r = times(a, times(b, v, n), n);
    assert forall|i: int| 0 <= i < n implies r[i] == v[i] by {
        let y = Seq::new(n, |j: int| dot(a[i], column(b, j), n));
        lemma_dot_associates(a[i], b, v, y, n);
        lemma_dot_unit(y, v, i, n);
    }
    assert(r =~= v);
}

/// A matrix with a left inverse is not singular.
pub proof fn lemma_inverse_means_regular(a: Seq<Seq<u8>>, b: Seq<Seq<u8>>, n: nat)
    requires
        product_is_identity(a, b, n),
        b.len() >= n,
    ensures
        !singular(b, n),
{
    if singular(b, n) {
        let v = choose|v: Seq<u8>| #[trigger]
            annihilates(b, v, n) && v.len() == n && !is_zero(v);
        lemma_identity_undoes(a, b, v, n);
        let z = times(b, v, n);
        assert forall|i: int| 0 <= i < n implies v[i] == 0 by {
            assert(times(a, z, n)[i] == dot(a[i], z, n));
            assert forall|k: int| 0 <= k < n implies z[k] == 0 by {
                assert(dot(b[k], v, n) == 0);
            }
            lemma_dot_zero(a[i], z, n);
        }
    }
}

// ── inversion ───────────────────────────────────────────────────────────

/// `m` has exactly `n` rows of `n` entries.
pub open spec fn square(m: Seq<Seq<u8>>, n: nat) -> bool {
    &&& m.len() == n
    &&& forall|i: int| 0 <= i < n ==> (#[trigger] m[i]).len() == n
}

/// Row operations took `m` to `a` and the identity to `r`: `r * m` is `a`, and
/// nothing was lost on the way.
spec fn reduces(m: Seq<Seq<u8>>, a: Seq<Seq<u8>>, r: Seq<Seq<u8>>, n: nat) -> bool {
    &&& square(a, n)
    &&& square(r, n)
    &&& forall|i: int, j: int|
        0 <= i < n && 0 <= j < n ==> #[trigger] dot(r[i], column(m, j), n) == a[i][j]
    &&& forall|v: Seq<u8>| v.len() == n && #[trigger] annihilates(a, v, n) ==> annihilates(m, v, n)
    &&& forall|v: Seq<u8>| v.len() == n && #[trigger] annihilates(r, v, n) ==> is_zero(v)
}

/// The first `c` columns are those of the identity.
spec fn eliminated(a: Seq<Seq<u8>>, c: int, n: nat) -> bool {
    forall|i: int, k: int|
        #![trigger a[i][k]]
        0 <= i < n && 0 <= k < c ==> a[i][k] == (if i == k {
            1u8
        } else {
            0u8
        })
}

proof fn lemma_swap_keeps(
    m: Seq<Seq<u8>>,
    a: Seq<Seq<u8>>,
    r: Seq<Seq<u8>>,
    p: int,
    q: int,
    n: nat,
)
    requires
        reduces(m, a, r, n),
        0 <= p < n,
        0 <= q < n,
    ensures
        reduces(m, a.update(p, a[q]).update(q, a[p]), r.update(p, r[q]).update(q, r[p]), n),
{
    let a2 = a.update(p, a[q]).update(q, a[p]);
    let r2 = r.update(p, r[q]).update(q, r[p]);
    assert forall|i: int, j: int| 0 <= i < n && 0 <= j < n implies #[trigger] dot(
        r2[i],
        column(m, j),
        n,
    ) == a2[i][j] by {
        let k = if i == q {
            p
        } else if i == p {
            q
        } else {
            i
        };
        assert(dot(r[k], column(m, j), n) == a[k][j]);
    }
    assert forall|v: Seq<u8>| v.len() == n && #[trigger] annihilates(a2, v, n) implies annihilates(
        m,
        v,
        n,
    ) by {
        assert forall|i: int| 0 <= i < n implies #[trigger] dot(a[i], v, n) == 0 by {
            let k = if i == q {
                p
            } else if i == p {
                q
            } else {
                i
            };
            assert(dot(a2[k], v, n) == 0);
        }
        assert(annihilates(a, v, n));
    }
    assert forall|v: Seq<u8>| v.len() == n && #[trigger] annihilates(r2, v, n) implies is_zero(
        v,
    ) by {
        assert forall|i: int| 0 <= i < n implies #[trigger] dot(r[i], v, n) == 0 by {
            let k = if i == q {
                p
            } else if i == p {
                q
            } else {
                i
            };
            assert(dot(r2[k], v, n) == 0);
        }
        assert(annihilates(r, v, n));
    }
}

proof fn lemma_scale_keeps_kernel(a: Seq<Seq<u8>>, c: int, s: u8, v: Seq<u8>, n: nat)
    requires
        square(a, n),
        0 <= c < n,
        s != 0,
        annihilates(a.update(c, scaled(a[c], s)), v, n),
    ensures
        annihilates(a, v, n),
{
    let a2 = a.update(c, scaled(a[c], s));
    assert forall|i: int| 0 <= i < n implies #[trigger] dot(a[i], v, n) == 0 by {
        assert(dot(a2[i], v, n) == 0);
        if i == c {
            lemma_dot_scaled(a[c], s, v, n);
            gf256::law_no_zero_divisors(s, dot(a[c], v, n));
        }
    }
}

proof fn lemma_scale_keeps(m: Seq<Seq<u8>>, a: Seq<Seq<u8>>, r: Seq<Seq<u8>>, c: int, s: u8, n: nat)
    requires
        reduces(m, a, r, n),
        0 <= c < n,
        s != 0,
    ensures
        reduces(m, a.update(c, scaled(a[c], s)), r.update(c, scaled(r[c], s)), n),
{
    let a2 = a.update(c, scaled(a[c], s));
    let r2 = r.update(c, scaled(r[c], s));
    assert forall|i: int, j: int| 0 <= i < n && 0 <= j < n implies #[trigger] dot(
        r2[i],
        column(m, j),
        n,
    ) == a2[i][j] by {
        assert(dot(r[i], column(m, j), n) == a[i][j]);
        lemma_dot_scaled(r[c], s, column(m, j), n);
        gf256::lemma_mul_commutes(s, a[c][j]);
    }
    assert forall|v: Seq<u8>| v.len() == n && #[trigger] annihilates(a2, v, n) implies annihilates(
        m,
        v,
        n,
    ) by {
        lemma_scale_keeps_kernel(a, c, s, v, n);
    }
    assert forall|v: Seq<u8>| v.len() == n && #[trigger] annihilates(r2, v, n) implies is_zero(
        v,
    ) by {
        lemma_scale_keeps_kernel(r, c, s, v, n);
    }
}

proof fn lemma_combine_keeps_kernel(a: Seq<Seq<u8>>, i: int, f: u8, c: int, v: Seq<u8>, n: nat)
    requires
        square(a, n),
        0 <= i < n,
        0 <= c < n,
        i != c,
        annihilates(a.update(i, combined(a[i], f, a[c])), v, n),
    ensures
        annihilates(a, v, n),
{
    let a2 = a.update(i, combined(a[i], f, a[c]));
    assert(dot(a2[c], v, n) == 0);
    assert(dot(a2[i], v, n) == 0);
    lemma_dot_combined(a[i], f, a[c], v, n);
    gf256::lemma_mul_units(f);
    lemma_xor_facts(dot(a[i], v, n), 0, 0, 0);
    assert forall|k: int| 0 <= k < n implies #[trigger] dot(a[k], v, n) == 0 by {
        assert(dot(a2[k], v, n) == 0);
    }
}

proof fn lemma_combine_keeps(
    m: Seq<Seq<u8>>,
    a: Seq<Seq<u8>>,
    r: Seq<Seq<u8>>,
    i: int,
    f: u8,
    c: int,
    n: nat,
)
    requires
        reduces(m, a, r, n),
        0 <= i < n,
        0 <= c < n,
        i != c,
    ensures
        reduces(
            m,
            a.update(i, combined(a[i], f, a[c])),
            r.update(i, combined(r[i], f, r[c])),
            n,
        ),
{
    let a2 = a.update(i, combined(a[i], f, a[c]));
    let r2 = r.update(i, combined(r[i], f, r[c]));
    assert forall|k: int, j: int| 0 <= k < n && 0 <= j < n implies #[trigger] dot(
        r2[k],
        column(m, j),
        n,
    ) == a2[k][j] by {
        assert(dot(r[k], column(m, j), n) == a[k][j]);
        assert(dot(r[c], column(m, j), n) == a[c][j]);
        lemma_dot_combined(r[i], f, r[c], column(m, j), n);
    }
    assert forall|v: Seq<u8>| v.len() == n && #[trigger] annihilates(a2, v, n) implies annihilates(
        m,
        v,
        n,
    ) by {
        lemma_combine_keeps_kernel(a, i, f, c, v, n);
    }
    assert forall|v: Seq<u8>| v.len() == n && #[trigger] annihilates(r2, v, n) implies is_zero(
        v,
    ) by {
        lemma_combine_keeps_kernel(r, i, f, c, v, n);
    }
}

/// A column without a pivot shows a vector that the matrix maps to zero.
proof fn lemma_no_pivot_is_singular(
    m: Seq<Seq<u8>>,
    a: Seq<Seq<u8>>,
    r: Seq<Seq<u8>>,
    c: int,
    n: nat,
)
    requires
        reduces(m, a, r, n),
        0 <= c < n,
        eliminated(a, c, n),
        forall|i: int| c <= i < n ==> #[trigger] a[i][c] == 0,
    ensures
        singular(m, n),
{
    let v = Seq::new(
        n,
        |k: int|
            if k < c {
                a[k][c]
            } else if k == c {
                1u8
            } else {
                0u8
            },
    );
    assert forall|i: int| 0 <= i < n implies #[trigger] dot(a[i], v, n) == 0 by {
        // The entries after column c do not count, those before it pick out row i.
        lemma_dot_tail_zero(a[i], v, (c + 1) as nat, n);
        gf256::lemma_mul_units(a[i][c]);
        if i < c {
            lemma_dot_unit(a[i], v, i, c as nat);
            lemma_xor_facts(a[i][c], 0, 0, 0);
        } else {
            lemma_dot_zero(a[i], v, c as nat);
            lemma_xor_facts(0, 0, 0, 0);
        }
    }
    assert(annihilates(a, v, n));
    assert(annihilates(m, v, n));
    assert(v[c] == 1);
    assert(!is_zero(v));
}

proof fn lemma_dot_tail_zero(x: Seq<u8>, y: Seq<u8>, t: nat, n: nat)
    requires
        t <= n,
        forall|k: int| t <= k < n ==> y[k] == 0,
    ensures
        dot(x, y, n) == dot(x, y, t),
    decreases n - t,
{
    if t < n {
        lemma_dot_tail_zero(x, y, t, (n - 1) as nat);
        gf256::lemma_mul_units(x[n - 1]);
        lemma_xor_facts(dot(x, y, t), 0, 0, 0);
    }
}

/// The reduction of a matrix to the identity leaves its inverse.
proof fn lemma_reduced_is_inverse(m: Seq<Seq<u8>>, a: Seq<Seq<u8>>, r: Seq<Seq<u8>>, n: nat)
    requires
        reduces(m, a, r, n),
        eliminated(a, n as int, n),
        m.len() >= n,
    ensures
        product_is_identity(r, m, n),
        product_is_identity(m, r, n),
        !singular(m, n),
{
    assert forall|i: int, j: int|
        #![trigger dot(r[i], column(m, j), n)]
        0 <= i < n && 0 <= j < n implies dot(r[i], column(m, j), n) == (if i == j {
        1u8
    } else {
        0u8
    }) by {
        assert(a[i][j] == (if i == j {
            1u8
        } else {
            0u8
        }));
    }
    lemma_inverse_means_regular(r, m, n);
    assert forall|i: int, j: int|
        #![trigger dot(m[i], column(r, j), n)]
        0 <= i < n && 0 <= j < n implies dot(m[i], column(r, j), n) == (if i == j {
        1u8
    } else {
        0u8
    }) by {
        lemma_right_inverse_column(m, r, j, n);
    }
}

proof fn lemma_right_inverse_column(m: Seq<Seq<u8>>, r: Seq<Seq<u8>>, j: int, n: nat)
    requires
        product_is_identity(r, m, n),
        m.len() >= n,
        r.len() == n,
        forall|v: Seq<u8>| v.len() == n && #[trigger] annihilates(r, v, n) ==> is_zero(v),
        0 <= j < n,
    ensures
        forall|i: int| #![trigger dot(m[i], column(r, j), n)] 0 <= i < n ==> dot(m[i], column(r, j), n) == (if i == j {
            1u8
        } else {
            0u8
        }),
{
    let e = Seq::new(
        n,
        |k: int|
            if k == j {
                1u8
            } else {
                0u8
            },
    );
    let c = column(r, j);
    assert(times(r, e, n) =~= c) by {
        assert forall|k: int| 0 <= k < n implies times(r, e, n)[k] == c[k] by {
            lemma_dot_commutes(r[k], e, n);
            lemma_dot_unit(e, r[k], j, n);
        }
    }
    let w = times(m, c, n);
    lemma_identity_undoes(r, m, c, n);
    // r * w is r * e, so w is e.
    let z = Seq::new(n, |k: int| w[k] ^ e[k]);
    assert forall|i: int| 0 <= i < n implies #[trigger] dot(r[i], z, n) == 0 by {
        assert(times(r, w, n)[i] == c[i]);
        assert(times(r, e, n)[i] == c[i]);
        lemma_dot_commutes(r[i], z, n);
        lemma_dot_commutes(r[i], w, n);
        lemma_dot_commutes(r[i], e, n);
        lemma_dot_add(w, e, z, r[i], n);
        lemma_xor_facts(c[i], 0, 0, 0);
    }
    assert(annihilates(r, z, n));
    assert forall|i: int| #![trigger dot(m[i], c, n)] 0 <= i < n implies dot(m[i], c, n) == (if i == j {
        1u8
    } else {
        0u8
    }) by {
        assert(z[i] == 0);
        lemma_xor_facts(w[i], e[i], 0, 0);
        assert(w[i] == dot(m[i], c, n));
    }
}

/// Clearing column `c` from row `row` on.
proof fn lemma_clear_column(
    m: Seq<Seq<u8>>,
    a: Seq<Seq<u8>>,
    r: Seq<Seq<u8>>,
    c: int,
    row: int,
    n: nat,
) -> (out: (Seq<Seq<u8>>, Seq<Seq<u8>>))
    requires
        reduces(m, a, r, n),
        0 <= c < n,
        0 <= row <= n,
        eliminated(a, c, n),
        a[c][c] == 1,
        forall|t: int| 0 <= t < row && t != c ==> #[trigger] a[t][c] == 0,
    ensures
        reduces(m, out.0, out.1, n),
        eliminated(out.0, c + 1, n),
    decreases n - row,
{
    if row == n {
        assert forall|i: int, k: int|
            #![trigger a[i][k]]
            0 <= i < n && 0 <= k < c + 1 implies a[i][k] == (if i == k {
            1u8
        } else {
            0u8
        }) by {
            if k == c && i != c {
                assert(a[i][c] == 0);
            }
        }
        (a, r)
    } else if row == c {
        lemma_clear_column(m, a, r, c, row + 1, n)
    } else {
        let f = a[row][c];
        lemma_combine_keeps(m, a, r, row, f, c, n);
        let a2 = a.update(row, combined(a[row], f, a[c]));
        let r2 = r.update(row, combined(r[row], f, r[c]));
        gf256::lemma_mul_units(f);
        lemma_xor_facts(f, 0, 0, 0);
        assert(a[row].len() == n);
        assert(a2[row][c] == 0);
        assert forall|i: int, k: int|
            #![trigger a2[i][k]]
            0 <= i < n && 0 <= k < c implies a2[i][k] == (if i == k {
            1u8
        } else {
            0u8
        }) by {
            assert(a[i][k] == (if i == k {
                1u8
            } else {
                0u8
            }));
            assert(a[c][k] == 0);
            lemma_xor_facts(a[i][k], 0, 0, 0);
        }
        assert forall|t: int| 0 <= t < row + 1 && t != c implies #[trigger] a2[t][c] == 0 by {
            if t < row {
                assert(a[t][c] == 0);
            }
        }
        lemma_clear_column(m, a2, r2, c, row + 1, n)
    }
}

proof fn lemma_reduce_from(m: Seq<Seq<u8>>, a: Seq<Seq<u8>>, r: Seq<Seq<u8>>, c: int, n: nat) -> (out:
    (Seq<Seq<u8>>, Seq<Seq<u8>>))
    requires
        reduces(m, a, r, n),
        0 <= c <= n,
        eliminated(a, c, n),
        !singular(m, n),
    ensures
        reduces(m, out.0, out.1, n),
        eliminated(out.0, n as int, n),
    decreases n - c,
{
    if c == n {
        (a, r)
    } else {
        if forall|i: int| c <= i < n ==> #[trigger] a[i][c] == 0 {
            lemma_no_pivot_is_singular(m, a, r, c, n);
        }
        let p = choose|p: int| c <= p < n && #[trigger] a[p][c] != 0;
        lemma_swap_keeps(m, a, r, c, p, n);
        let a1 = a.update(c, a[p]).update(p, a[c]);
        let r1 = r.update(c, r[p]).update(p, r[c]);
        let s = gf256::gf_pow(a1[c][c], 254);
        gf256::lemma_inverse(a1[c][c]);
        lemma_scale_keeps(m, a1, r1, c, s, n);
        let a2 = a1.update(c, scaled(a1[c], s));
        let r2 = r1.update(c, scaled(r1[c], s));
        assert(a[p].len() == n);
        assert(a2[c][c] == 1);
        assert forall|i: int, k: int|
            #![trigger a2[i][k]]
            0 <= i < n && 0 <= k < c implies a2[i][k] == (if i == k {
            1u8
        } else {
            0u8
        }) by {
            let q = if i == c {
                p
            } else if i == p {
                c
            } else {
                i
            };
            assert(a1[i] == a[q]);
            assert(a[q][k] == (if q == k {
                1u8
            } else {
                0u8
            }));
            gf256::lemma_mul_units(s);
        }
        let (a3, r3) = lemma_clear_column(m, a2, r2, c, 0, n);
        lemma_reduce_from(m, a3, r3, c + 1, n)
    }
}

/// A matrix that is not singular has an inverse.
pub proof fn lemma_has_inverse(m: Seq<Seq<u8>>, n: nat) -> (inv: Seq<Seq<u8>>)
    requires
        covers(m, n),
        !singular(m, n),
    ensures
        square(inv, n),
        product_is_identity(inv, m, n),
        product_is_identity(m, inv, n),
{
    let a = Seq::new(n, |i: int| m[i].take(n as int));
    let r = Seq::new(
        n,
        |i: int|
            Seq::new(
                n,
                |k: int|
                    if i == k {
                        1u8
                    } else {
                        0u8
                    },
            ),
    );
    lemma_initial(m, a, r, n);
    let (b, inv) = lemma_reduce_from(m, a, r, 0, n);
    lemma_reduced_is_inverse(m, b, inv, n);
    inv
}

fn identity_row(p: usize, n: usize) -> (row: Vec<u8>)
    requires
        p < n,
    ensures
        row.len() == n,
        forall|k: int| 0 <= k < n ==> row[k] == (if k == p {
            1u8
        } else {
            0u8
        }),
{
    let mut row: Vec<u8> = Vec::with_capacity(n);
    let mut k: usize = 0;
    while k < n
        invariant
            k <= n,
            row.len() == k,
            forall|t: int| 0 <= t < k ==> row[t] == (if t == p {
                1u8
            } else {
                0u8
            }),
        decreases n - k,
    {
        row.push(if k == p {
            1
        } else {
            0
        });
        k += 1;
    }
    row
}

fn scale_row(m: &mut Vec<Vec<u8>>, r: usize, s: u8)
    requires
        r < old(m).len(),
    ensures
        rows(final(m)@) == rows(old(m)@).update(r as int, scaled(rows(old(m)@)[r as int], s)),
{
    let mut row: Vec<u8> = Vec::with_capacity(m[r].len());
    let mut k: usize = 0;
    while k < m[r].len()
        invariant
            r < m.len(),
            m@ == old(m)@,
            k <= m[r as int].len(),
            row@ == scaled(m[r as int]@, s).take(k as int),
        decreases m[r as int].len() - k,
    {
        row.push(gf256::mul(m[r][k], s));
        k += 1;
        assert(row@ =~= scaled(m[r as int]@, s).take(k as int));
    }
    m.set(r, row);
    assert(row@ =~= scaled(old(m)[r as int]@, s));
    assert(rows(m@) =~= rows(old(m)@).update(r as int, scaled(rows(old(m)@)[r as int], s)));
}

fn combine_row(m: &mut Vec<Vec<u8>>, r: usize, f: u8, c: usize)
    requires
        r < old(m).len(),
        c < old(m).len(),
        old(m)[r as int].len() <= old(m)[c as int].len(),
    ensures
        rows(final(m)@) == rows(old(m)@).update(
            r as int,
            combined(rows(old(m)@)[r as int], f, rows(old(m)@)[c as int]),
        ),
{
    let mut row: Vec<u8> = Vec::with_capacity(m[r].len());
    let mut k: usize = 0;
    while k < m[r].len()
        invariant
            r < m.len(),
            c < m.len(),
            m@ == old(m)@,
            m[r as int].len() <= m[c as int].len(),
            k <= m[r as int].len(),
            row@ == combined(m[r as int]@, f, m[c as int]@).take(k as int),
        decreases m[r as int].len() - k,
    {
        row.push(m[r][k] ^ gf256::mul(f, m[c][k]));
        k += 1;
        assert(row@ =~= combined(m[r as int]@, f, m[c as int]@).take(k as int));
    }
    m.set(r, row);
    assert(row@ =~= combined(old(m)[r as int]@, f, old(m)[c as int]@));
    assert(rows(m@) =~= rows(old(m)@).update(
        r as int,
        combined(rows(old(m)@)[r as int], f, rows(old(m)@)[c as int]),
    ));
}

fn swap_rows(m: &mut Vec<Vec<u8>>, p: usize, q: usize)
    requires
        p < old(m).len(),
        q < old(m).len(),
    ensures
        rows(final(m)@) == rows(old(m)@).update(p as int, rows(old(m)@)[q as int]).update(
            q as int,
            rows(old(m)@)[p as int],
        ),
{
    let a = m[p].clone();
    let b = m[q].clone();
    m.set(p, b);
    m.set(q, a);
    assert(a@ =~= old(m)[p as int]@);
    assert(b@ =~= old(m)[q as int]@);
    assert(rows(m@) =~= rows(old(m)@).update(p as int, rows(old(m)@)[q as int]).update(
        q as int,
        rows(old(m)@)[p as int],
    ));
}

/// Invert a square matrix over GF(2^8) using Gauss-Jordan elimination.
///
/// `None` exactly where the matrix is singular.
pub fn invert_matrix(matrix: &[Vec<u8>]) -> (r: Option<Vec<Vec<u8>>>)
    requires
        covers(rows(matrix@), matrix@.len()),
    ensures
        r is None <==> singular(rows(matrix@), matrix@.len()),
        r matches Some(inv) ==> {
            &&& square(rows(inv@), matrix@.len())
            &&& product_is_identity(rows(inv@), rows(matrix@), matrix@.len())
            &&& product_is_identity(rows(matrix@), rows(inv@), matrix@.len())
        },
{
    let n = matrix.len();
    let ghost m = rows(matrix@);
    let ghost nn = matrix@.len();
    let mut left: Vec<Vec<u8>> = Vec::with_capacity(n);
    let mut right: Vec<Vec<u8>> = Vec::with_capacity(n);
    let mut i: usize = 0;
    while i < n
        invariant
            n == matrix.len(),
            nn == n,
            m == rows(matrix@),
            covers(m, nn),
            i <= n,
            left.len() == i,
            right.len() == i,
            forall|t: int| 0 <= t < i ==> (#[trigger] left[t])@ == m[t].take(nn as int),
            forall|t: int| 0 <= t < i ==> (#[trigger] right[t]).len() == n,
            forall|t: int, k: int|
                #![trigger right[t][k]]
                0 <= t < i && 0 <= k < n ==> right[t][k] == (if t == k {
                    1u8
                } else {
                    0u8
                }),
        decreases n - i,
    {
        let mut row: Vec<u8> = Vec::with_capacity(n);
        let mut j: usize = 0;
        assert(m[i as int].len() >= nn);
        while j < n
            invariant
                n == matrix.len(),
                nn == n,
                m == rows(matrix@),
                i < n,
                m[i as int].len() >= nn,
                j <= n,
                row@ == m[i as int].take(j as int),
            decreases n - j,
        {
            row.push(matrix[i][j]);
            j += 1;
            assert(row@ =~= m[i as int].take(j as int));
        }
        left.push(row);
        right.push(identity_row(i, n));
        i += 1;
    }
    proof {
        lemma_initial(m, rows(left@), rows(right@), nn);
    }
    let mut c: usize = 0;
    while c < n
        invariant
            n == matrix.len(),
            nn == n,
            m == rows(matrix@),
            c <= n,
            reduces(m, rows(left@), rows(right@), nn),
            eliminated(rows(left@), c as int, nn),
            left.len() == n,
            right.len() == n,
        decreases n - c,
    {
        // Find the pivot.
        let mut p: usize = c;
        assert(rows(left@)[c as int].len() == n);
        while p < n && left[p][c] == 0
            invariant
                c <= p <= n,
                c < n,
                nn == n,
                left.len() == n,
                square(rows(left@), nn),
                p < n ==> left[p as int].len() == n,
                forall|t: int| c <= t < p ==> #[trigger] rows(left@)[t][c as int] == 0,
            decreases n - p,
        {
            assert(rows(left@)[p as int].len() == n);
            assert(rows(left@)[p as int][c as int] == left[p as int][c as int]);
            p += 1;
            if p < n {
                assert(rows(left@)[p as int].len() == n);
            }
        }
        if p == n {
            proof {
                lemma_no_pivot_is_singular(m, rows(left@), rows(right@), c as int, nn);
            }
            return None;
        }
        let ghost a0 = rows(left@);
        let ghost r0 = rows(right@);
        assert(a0[p as int].len() == n && a0[c as int].len() == n);
        proof {
            lemma_swap_keeps(m, a0, r0, c as int, p as int, nn);
        }
        swap_rows(&mut left, c, p);
        swap_rows(&mut right, c, p);
        let ghost a1 = rows(left@);
        let ghost r1 = rows(right@);
        assert(a1[c as int][c as int] == a0[p as int][c as int]);
        assert(a1[c as int].len() == n);
        // Scale the pivot row to make the pivot 1.
        let pivot = left[c][c];
        assert(pivot == a1[c as int][c as int]);
        let inv_pivot = gf256::inv(pivot);
        proof {
            gf256::lemma_mul_units(pivot);
            lemma_scale_keeps(m, a1, r1, c as int, inv_pivot, nn);
        }
        scale_row(&mut left, c, inv_pivot);
        scale_row(&mut right, c, inv_pivot);
        proof {
            let a2 = rows(left@);
            assert(a2[c as int][c as int] == 1);
            assert forall|i: int, k: int|
                #![trigger a2[i][k]]
                0 <= i < n && 0 <= k < c implies a2[i][k] == (if i == k {
                1u8
            } else {
                0u8
            }) by {
                assert(a1[i][k] == (if i == k {
                    1u8
                } else {
                    0u8
                })) by {
                    let q = if i == c {
                        p as int
                    } else if i == p {
                        c as int
                    } else {
                        i
                    };
                    assert(a1[i] == a0[q]);
                    assert(a0[q][k] == (if q == k {
                        1u8
                    } else {
                        0u8
                    }));
                }
                gf256::lemma_mul_units(inv_pivot);
            }
        }
        // Eliminate the other rows.
        let mut row: usize = 0;
        while row < n
            invariant
                n == matrix.len(),
                nn == n,
                m == rows(matrix@),
                c < n,
                row <= n,
                reduces(m, rows(left@), rows(right@), nn),
                eliminated(rows(left@), c as int, nn),
                left.len() == n,
                right.len() == n,
                rows(left@)[c as int][c as int] == 1,
                forall|t: int|
                    0 <= t < row && t != c ==> #[trigger] rows(left@)[t][c as int] == 0,
            decreases n - row,
        {
            assert(rows(left@)[row as int].len() == n);
            assert(rows(left@)[c as int].len() == n);
            assert(rows(right@)[row as int].len() == n);
            assert(rows(right@)[c as int].len() == n);
            let factor = left[row][c];
            assert(factor == rows(left@)[row as int][c as int]);
            if row != c && factor != 0 {
                let ghost a3 = rows(left@);
                let ghost r3 = rows(right@);
                proof {
                    lemma_combine_keeps(m, a3, r3, row as int, factor, c as int, nn);
                }
                combine_row(&mut left, row, factor, c);
                combine_row(&mut right, row, factor, c);
                proof {
                    let a4 = rows(left@);
                    gf256::lemma_mul_units(factor);
                    lemma_xor_facts(factor, 0, 0, 0);
                    assert(a4[row as int][c as int] == 0);
                    assert(a4[c as int] == a3[c as int]);
                    assert forall|i: int, k: int|
                        #![trigger a4[i][k]]
                        0 <= i < n && 0 <= k < c implies a4[i][k] == (if i == k {
                        1u8
                    } else {
                        0u8
                    }) by {
                        assert(a3[i][k] == (if i == k {
                            1u8
                        } else {
                            0u8
                        }));
                        assert(a3[c as int][k] == 0);
                        lemma_xor_facts(a3[i][k], 0, 0, 0);
                    }
                    assert forall|t: int| 0 <= t < row && t != c implies #[trigger] a4[t][c as int]
                        == 0 by {
                        assert(a3[t][c as int] == 0);
                    }
                }
            }
            row += 1;
        }
        proof {
            let a5 = rows(left@);
            assert forall|i: int, k: int|
                #![trigger a5[i][k]]
                0 <= i < n && 0 <= k < c + 1 implies a5[i][k] == (if i == k {
                1u8
            } else {
                0u8
            }) by {
                if k == c {
                    if i != c {
                        assert(a5[i][c as int] == 0);
                    }
                }
            }
        }
        c += 1;
    }
    proof {
        lemma_reduced_is_inverse(m, rows(left@), rows(right@), nn);
    }
    Some(right)
}

proof fn lemma_initial(m: Seq<Seq<u8>>, a: Seq<Seq<u8>>, r: Seq<Seq<u8>>, n: nat)
    requires
        covers(m, n),
        a.len() == n,
        r.len() == n,
        forall|t: int| 0 <= t < n ==> #[trigger] a[t] == m[t].take(n as int),
        forall|t: int| 0 <= t < n ==> (#[trigger] r[t]).len() == n,
        forall|t: int, k: int|
            #![trigger r[t][k]]
            0 <= t < n && 0 <= k < n ==> r[t][k] == (if t == k {
                1u8
            } else {
                0u8
            }),
    ensures
        reduces(m, a, r, n),
{
    assert forall|i: int| 0 <= i < n implies (#[trigger] a[i]).len() == n by {
        assert(m[i].len() >= n);
    }
    assert forall|i: int, j: int| 0 <= i < n && 0 <= j < n implies #[trigger] dot(
        r[i],
        column(m, j),
        n,
    ) == a[i][j] by {
        lemma_dot_unit(r[i], column(m, j), i, n);
        assert(m[i].len() >= n);
    }
    assert forall|v: Seq<u8>| v.len() == n && #[trigger] annihilates(a, v, n) implies annihilates(
        m,
        v,
        n,
    ) by {
        assert forall|i: int| 0 <= i < n implies #[trigger] dot(m[i], v, n) == 0 by {
            assert(dot(a[i], v, n) == 0);
            assert(m[i].len() >= n);
            lemma_dot_prefix(m[i], v, a[i], v, n);
        }
    }
    assert forall|v: Seq<u8>| v.len() == n && #[trigger] annihilates(r, v, n) implies is_zero(
        v,
    ) by {
        assert forall|k: int| 0 <= k < v.len() implies v[k] == 0 by {
            assert(dot(r[k], v, n) == 0);
            lemma_dot_unit(r[k], v, k, n);
        }
    }
}

// ── Vandermonde matrices ────────────────────────────────────────────────

/// The value at `x` of the polynomial with coefficients `p`, lowest first.
pub open spec fn evaluate(p: Seq<u8>, x: u8) -> u8
    decreases p.len(),
{
    if p.len() == 0 {
        0
    } else {
        p[0] ^ gf256::gf_mul(x, evaluate(p.drop_first(), x))
    }
}

/// The powers `x^0 .. x^(n-1)`.
pub open spec fn powers(x: u8, n: nat) -> Seq<u8> {
    Seq::new(n, |j: int| gf256::gf_pow(x, j as nat))
}

proof fn lemma_evaluate_push(p: Seq<u8>, c: u8, x: u8)
    ensures
        evaluate(p.push(c), x) == evaluate(p, x) ^ gf256::gf_mul(gf256::gf_pow(x, p.len()), c),
    decreases p.len(),
{
    let q = p.push(c);
    gf256::lemma_mul_units(c);
    gf256::lemma_mul_units(x);
    if p.len() == 0 {
        assert(q.drop_first() =~= Seq::<u8>::empty());
        assert(evaluate(q.drop_first(), x) == 0);
        assert(evaluate(q, x) == c ^ gf256::gf_mul(x, 0));
        assert(gf256::gf_pow(x, 0) == 1);
        lemma_xor_facts(c, 0, 0, 0);
    } else {
        let t = p.drop_first();
        assert(q.drop_first() =~= t.push(c));
        lemma_evaluate_push(t, c, x);
        let k = gf256::gf_pow(x, t.len());
        assert(t.len() == p.len() - 1);
        assert(gf256::gf_pow(x, p.len()) == gf256::gf_mul(k, x));
        assert(evaluate(q, x) == q[0] ^ gf256::gf_mul(x, evaluate(t.push(c), x)));
        gf256::lemma_mul_distributes(evaluate(t, x), gf256::gf_mul(k, c), x);
        gf256::lemma_mul_associates(x, k, c);
        gf256::lemma_mul_commutes(x, k);
        lemma_xor_facts(
            p[0],
            gf256::gf_mul(x, evaluate(t, x)),
            gf256::gf_mul(gf256::gf_pow(x, p.len()), c),
            0,
        );
    }
}

/// The product of a row of powers and a vector is a polynomial's value.
pub proof fn lemma_dot_powers(row: Seq<u8>, x: u8, v: Seq<u8>, n: nat)
    requires
        n <= v.len(),
        forall|k: int| 0 <= k < n ==> row[k] == gf256::gf_pow(x, k as nat),
    ensures
        dot(row, v, n) == evaluate(v.take(n as int), x),
    decreases n,
{
    if n > 0 {
        lemma_dot_powers(row, x, v, (n - 1) as nat);
        assert(v.take(n as int) =~= v.take(n - 1).push(v[n - 1]));
        lemma_evaluate_push(v.take(n - 1), v[n - 1], x);
    }
}

/// The quotient of `p` by `x - r`.
spec fn quotient(p: Seq<u8>, r: u8) -> Seq<u8>
    decreases p.len(),
{
    if p.len() <= 1 {
        Seq::empty()
    } else {
        seq![evaluate(p.drop_first(), r)] + quotient(p.drop_first(), r)
    }
}

proof fn lemma_quotient(p: Seq<u8>, r: u8, x: u8)
    requires
        p.len() > 0,
    ensures
        quotient(p, r).len() == p.len() - 1,
        evaluate(p, x) == evaluate(p, r) ^ gf256::gf_mul(x ^ r, evaluate(quotient(p, r), x)),
    decreases p.len(),
{
    gf256::lemma_mul_units(x ^ r);
    if p.len() == 1 {
        assert(p.drop_first() =~= Seq::<u8>::empty());
        assert(evaluate(p.drop_first(), x) == 0 && evaluate(p.drop_first(), r) == 0);
        assert(evaluate(quotient(p, r), x) == 0);
        gf256::lemma_mul_units(x);
        gf256::lemma_mul_units(r);
        lemma_xor_facts(p[0], 0, 0, 0);
    } else {
        let t = p.drop_first();
        lemma_quotient(t, r, x);
        let tr = evaluate(t, r);
        let q = quotient(t, r);
        let qx = evaluate(q, x);
        assert(quotient(p, r).drop_first() =~= q);
        // p0 + x * (t(r) + (x - r) * q(x))
        gf256::lemma_mul_distributes(tr, gf256::gf_mul(x ^ r, qx), x);
        gf256::lemma_mul_associates(x, x ^ r, qx);
        gf256::lemma_mul_associates(x ^ r, x, qx);
        gf256::lemma_mul_commutes(x, x ^ r);
        // p0 + r * t(r) + (x - r) * (t(r) + x * q(x))
        gf256::lemma_mul_distributes(tr, gf256::gf_mul(x, qx), x ^ r);
        gf256::lemma_mul_distributes(x, r, tr);
        let (a, b, c, d) = (p[0], gf256::gf_mul(r, tr), gf256::gf_mul(x, tr), gf256::gf_mul(gf256::gf_mul(x, x ^ r), qx));
        assert(a ^ (c ^ d) == (a ^ b) ^ ((c ^ b) ^ d)) by (bit_vector);
        assert(evaluate(p, x) == a ^ gf256::gf_mul(x, evaluate(t, x)));
        assert(evaluate(p, r) == a ^ b);
        let full = quotient(p, r);
        assert(full[0] == tr);
        assert(evaluate(full, x) == tr ^ gf256::gf_mul(x, qx));
    }
}

proof fn lemma_zero_quotient(p: Seq<u8>, r: u8)
    requires
        p.len() > 0,
        evaluate(p, r) == 0,
        is_zero(quotient(p, r)),
    ensures
        is_zero(p),
    decreases p.len(),
{
    let t = p.drop_first();
    gf256::lemma_mul_units(r);
    lemma_xor_facts(p[0], 0, 0, 0);
    if p.len() == 1 {
        assert(t =~= Seq::<u8>::empty());
    } else {
        let q = quotient(p, r);
        assert(q[0] == evaluate(t, r));
        assert(q.drop_first() =~= quotient(t, r));
        assert forall|k: int| 0 <= k < quotient(t, r).len() implies quotient(t, r)[k] == 0 by {
            assert(q[k + 1] == 0);
        }
        lemma_zero_quotient(t, r);
        assert forall|k: int| 0 <= k < p.len() implies p[k] == 0 by {
            if k > 0 {
                assert(t[k - 1] == 0);
            }
        }
    }
}

/// A polynomial with as many distinct roots as coefficients is zero.
pub proof fn lemma_too_many_roots(p: Seq<u8>, xs: Seq<u8>)
    requires
        xs.len() == p.len(),
        forall|i: int, j: int| 0 <= i < j < xs.len() ==> xs[i] != xs[j],
        forall|i: int| 0 <= i < xs.len() ==> evaluate(p, #[trigger] xs[i]) == 0,
    ensures
        is_zero(p),
    decreases p.len(),
{
    if p.len() > 0 {
        let n = p.len();
        let r = xs[n - 1];
        let q = quotient(p, r);
        let ys = xs.take(n - 1);
        lemma_quotient(p, r, r);
        assert forall|i: int| 0 <= i < ys.len() implies evaluate(q, #[trigger] ys[i]) == 0 by {
            let x = xs[i];
            assert(ys[i] == x);
            lemma_quotient(p, r, x);
            lemma_xor_facts(gf256::gf_mul(x ^ r, evaluate(q, x)), 0, 0, 0);
            gf256::law_no_zero_divisors(x ^ r, evaluate(q, x));
            lemma_xor_facts(x, r, 0, 0);
        }
        lemma_too_many_roots(q, ys);
        lemma_zero_quotient(p, r);
    }
}

} // verus!
