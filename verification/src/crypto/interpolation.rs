//! Why Lagrange interpolation recovers a shared secret: polynomials over the
//! integers read modulo the field order, the factor theorem, and the bound
//! on the roots of a polynomial whose points differ invertibly.

use vstd::prelude::*;
use vstd::arithmetic::div_mod::{lemma_mul_mod_noop_right, lemma_mul_mod_noop_left, lemma_add_mod_noop, lemma_sub_mod_noop, lemma_small_mod, lemma_mod_bound};
use vstd::arithmetic::mul::{lemma_mul_is_distributive_add, lemma_mul_is_distributive_sub, lemma_mul_is_associative, lemma_mul_is_commutative};
use crate::crypto::field::{scalar_modulus, field_add, field_mul, field_inv, is_inverse, lemma_inverse_unique};
use crate::crypto::sss::{lagrange_num, lagrange_den, lagrange_basis, lagrange_sum, interpolate_at_zero, interpolable, poly_sum, poly_eval, power};

verus! {

/// Horner evaluation over the integers: `p[0] + x * (p[1] + x * (...))`.
pub open spec fn heval(p: Seq<int>, x: int) -> int
    decreases p.len(),
{
    if p.len() == 0 {
        0
    } else {
        p[0] + x * heval(p.drop_first(), x)
    }
}

/// Coefficient-wise sum of two polynomials.
pub open spec fn padd(p: Seq<int>, r: Seq<int>) -> Seq<int>
    decreases p.len() + r.len(),
{
    if p.len() == 0 {
        r
    } else if r.len() == 0 {
        p
    } else {
        seq![p[0] + r[0]] + padd(p.drop_first(), r.drop_first())
    }
}

/// A polynomial times a constant.
pub open spec fn pscale(c: int, p: Seq<int>) -> Seq<int> {
    p.map_values(|v: int| c * v)
}

/// A polynomial times `X - a`.
pub open spec fn mul_lin(p: Seq<int>, a: int) -> Seq<int> {
    padd(seq![0int] + p, pscale(-a, p))
}

/// The quotient of `p` by `X - a` (synthetic division).
pub open spec fn quot(p: Seq<int>, a: int) -> Seq<int>
    decreases p.len(),
{
    if p.len() <= 1 {
        Seq::empty()
    } else {
        padd(p.drop_first(), pscale(a, quot(p.drop_first(), a)))
    }
}

proof fn lemma_padd(p: Seq<int>, r: Seq<int>, x: int)
    ensures
        heval(padd(p, r), x) == heval(p, x) + heval(r, x),
        padd(p, r).len() == if p.len() >= r.len() { p.len() } else { r.len() },
    decreases p.len() + r.len(),
{
    if p.len() > 0 && r.len() > 0 {
        lemma_padd(p.drop_first(), r.drop_first(), x);
        let s = seq![p[0] + r[0]] + padd(p.drop_first(), r.drop_first());
        assert(s.drop_first() =~= padd(p.drop_first(), r.drop_first()));
        lemma_mul_is_distributive_add(x, heval(p.drop_first(), x), heval(r.drop_first(), x));
    }
}

proof fn lemma_pscale(c: int, p: Seq<int>, x: int)
    ensures
        heval(pscale(c, p), x) == c * heval(p, x),
        pscale(c, p).len() == p.len(),
    decreases p.len(),
{
    if p.len() > 0 {
        lemma_pscale(c, p.drop_first(), x);
        assert(pscale(c, p).drop_first() =~= pscale(c, p.drop_first()));
        let h = heval(p.drop_first(), x);
        assert(c * p[0] + x * (c * h) == c * (p[0] + x * h)) by (nonlinear_arith);
    }
}

proof fn lemma_mul_lin(p: Seq<int>, a: int, x: int)
    ensures
        heval(mul_lin(p, a), x) == (x - a) * heval(p, x),
        mul_lin(p, a).len() == p.len() + 1,
{
    let shifted = seq![0int] + p;
    assert(shifted.drop_first() =~= p);
    lemma_padd(shifted, pscale(-a, p), x);
    lemma_pscale(-a, p, x);
    let h = heval(p, x);
    assert(0 + x * h + (-a) * h == (x - a) * h) by (nonlinear_arith);
}

/// The factor theorem: `p(x) - p(a) = (x - a) * q(x)` with `q` the
/// quotient of `p` by `X - a`, one coefficient shorter.
proof fn lemma_quot(p: Seq<int>, a: int, x: int)
    ensures
        heval(p, x) - heval(p, a) == (x - a) * heval(quot(p, a), x),
        p.len() >= 1 ==> quot(p, a).len() == p.len() - 1,
    decreases p.len(),
{
    if p.len() == 0 {
        assert((x - a) * 0 == 0) by (nonlinear_arith);
    } else if p.len() == 1 {
        assert(heval(p.drop_first(), x) == 0);
        assert(heval(p.drop_first(), a) == 0);
        assert(x * 0 == 0 && a * 0 == 0 && (x - a) * 0 == 0) by (nonlinear_arith);
        assert(heval(quot(p, a), x) == 0);
    } else if p.len() > 1 {
        let rest = p.drop_first();
        lemma_quot(rest, a, x);
        let s = quot(rest, a);
        lemma_padd(rest, pscale(a, s), x);
        lemma_pscale(a, s, x);
        let rx = heval(rest, x);
        let ra = heval(rest, a);
        let sx = heval(s, x);
        assert(rx - ra == (x - a) * sx);
        assert((p[0] + x * rx) - (p[0] + a * ra) == (x - a) * (rx + a * sx)) by (nonlinear_arith)
            requires
                rx - ra == (x - a) * sx;
        assert(heval(p, x) == p[0] + x * rx);
        assert(heval(p, a) == p[0] + a * ra);
        assert(heval(quot(p, a), x) == rx + a * sx);
    }
}

/// The field order as an integer.
pub open spec fn modulus() -> int {
    scalar_modulus() as int
}

/// Whether `d` has a multiplicative inverse modulo the field order.
pub open spec fn invertible(d: int) -> bool {
    exists|u: int| #[trigger] ((d * u) % modulus()) == 1
}

/// Whether points `i` and `j` of `pts` differ by an invertible amount.
pub open spec fn gap_invertible(pts: Seq<int>, i: int, j: int) -> bool {
    invertible(pts[i] - pts[j])
}

/// Whether the points differ pairwise by invertible amounts, as distinct
/// points of the prime field do.
pub open spec fn separated(pts: Seq<int>) -> bool {
    forall|i: int, j: int| 0 <= i < pts.len() && 0 <= j < pts.len() && i != j ==> #[trigger] gap_invertible(pts, i, j)
}

proof fn lemma_mod_cancel(d: int, s: int, u: int)
    requires
        (d * u) % modulus() == 1,
        (d * s) % modulus() == 0,
    ensures
        s % modulus() == 0,
{
    let m = modulus();
    assert(m > 0);
    lemma_mul_mod_noop_right(s, d * u, m);
    lemma_mul_is_associative(s, d, u);
    lemma_mul_is_commutative(s, d);
    lemma_mul_mod_noop_left(d * s, u, m);
    assert(s * 1 == s);
    assert(0 * u == 0);
}

/// A polynomial with no more coefficients than there are separated points
/// at which it vanishes vanishes everywhere, modulo the field order.
proof fn lemma_vanishing(r: Seq<int>, pts: Seq<int>, x: int)
    requires
        r.len() <= pts.len(),
        separated(pts),
        forall|i: int| 0 <= i < pts.len() ==> #[trigger] heval(r, pts[i]) % modulus() == 0,
    ensures
        heval(r, x) % modulus() == 0,
    decreases pts.len(),
{
    let m = modulus();
    if r.len() == 0 {
        assert(heval(r, x) == 0);
    } else {
        let a = pts.last();
        let n = pts.len() - 1;
        let init = pts.drop_last();
        let s = quot(r, a);
        lemma_quot(r, a, a);
        assert forall|i: int| 0 <= i < init.len() implies #[trigger] heval(s, init[i]) % m == 0 by {
            let p = init[i];
            assert(p == pts[i]);
            lemma_quot(r, a, p);
            assert(heval(r, pts[i]) % m == 0);
            assert(heval(r, pts[n]) % m == 0);
            let d = p - a;
            assert(gap_invertible(pts, i, n));
            let u = choose|u: int| #[trigger] ((d * u) % m) == 1;
            lemma_sub_mod_noop(heval(r, p), heval(r, a), m);
            assert((d * heval(s, p)) % m == 0);
            lemma_mod_cancel(d, heval(s, p), u);
        }
        assert forall|i: int, j: int| 0 <= i < init.len() && 0 <= j < init.len() && i != j implies #[trigger] gap_invertible(init, i, j) by {
            assert(gap_invertible(pts, i, j));
        }
        lemma_vanishing(s, init, x);
        lemma_quot(r, a, x);
        let sx = heval(s, x);
        lemma_mul_mod_noop_right(x - a, sx, m);
        lemma_add_mod_noop(heval(r, a), (x - a) * sx, m);
        assert((x - a) * 0 == 0) by (nonlinear_arith);
        lemma_small_mod(0, m as nat);
    }
}

/// The product of `x - pts[j]` over `j < n`, `j != i`.
pub open spec fn iprod(pts: Seq<int>, i: int, n: nat, x: int) -> int
    decreases n,
{
    if n == 0 {
        1
    } else if n - 1 == i {
        iprod(pts, i, (n - 1) as nat, x)
    } else {
        iprod(pts, i, (n - 1) as nat, x) * (x - pts[n - 1])
    }
}

/// The coefficients of the product of `X - pts[j]` over `j < n`, `j != i`.
pub open spec fn lnode(pts: Seq<int>, i: int, n: nat) -> Seq<int>
    decreases n,
{
    if n == 0 {
        seq![1int]
    } else if n - 1 == i {
        lnode(pts, i, (n - 1) as nat)
    } else {
        mul_lin(lnode(pts, i, (n - 1) as nat), pts[n - 1])
    }
}

proof fn lemma_lnode(pts: Seq<int>, i: int, n: nat, x: int)
    requires
        0 <= i < n,
    ensures
        heval(lnode(pts, i, n), x) == iprod(pts, i, n, x),
        lnode(pts, i, n).len() == n,
    decreases n,
{
    let prev = (n - 1) as nat;
    if n - 1 == i {
        assert(lnode(pts, i, n) == lnode(pts, i, prev));
        assert(iprod(pts, i, n, x) == iprod(pts, i, prev, x));
        lemma_lnode_before(pts, i, prev, x);
    } else {
        lemma_lnode(pts, i, prev, x);
        assert(lnode(pts, i, n) == mul_lin(lnode(pts, i, prev), pts[n - 1]));
        lemma_mul_lin(lnode(pts, i, prev), pts[n - 1], x);
        lemma_mul_is_commutative(x - pts[n - 1], iprod(pts, i, prev, x));
    }
}

proof fn lemma_lnode_before(pts: Seq<int>, i: int, n: nat, x: int)
    requires
        i >= n,
    ensures
        heval(lnode(pts, i, n), x) == iprod(pts, i, n, x),
        lnode(pts, i, n).len() == n + 1,
    decreases n,
{
    if n == 0 {
        assert(lnode(pts, i, 0) == seq![1int]);
        assert(seq![1int].drop_first() =~= Seq::<int>::empty());
        assert(heval(Seq::<int>::empty(), x) == 0);
        assert(x * 0 == 0) by (nonlinear_arith);
        assert(heval(seq![1int], x) == 1);
    } else {
        let prev = (n - 1) as nat;
        lemma_lnode_before(pts, i, prev, x);
        assert(lnode(pts, i, n) == mul_lin(lnode(pts, i, prev), pts[n - 1]));
        lemma_mul_lin(lnode(pts, i, prev), pts[n - 1], x);
        lemma_mul_is_commutative(x - pts[n - 1], iprod(pts, i, prev, x));
    }
}

proof fn lemma_iprod_vanishes(pts: Seq<int>, i: int, n: nat, k: int)
    requires
        0 <= k < n,
        k != i,
    ensures
        iprod(pts, i, n, pts[k]) == 0,
    decreases n,
{
    if n - 1 != k {
        lemma_iprod_vanishes(pts, i, (n - 1) as nat, k);
        if n - 1 != i {
            assert(0 * (pts[k] - pts[n - 1]) == 0) by (nonlinear_arith);
        }
    } else {
        assert(iprod(pts, i, (n - 1) as nat, pts[k]) * 0 == 0) by (nonlinear_arith);
    }
}

/// The interpolating polynomial's first `m` terms: the sum of `ws[i]`
/// times the `i`-th node polynomial of all the points.
pub open spec fn qpoly(pts: Seq<int>, ws: Seq<int>, m: nat) -> Seq<int>
    decreases m,
{
    if m == 0 {
        Seq::empty()
    } else {
        padd(qpoly(pts, ws, (m - 1) as nat), pscale(ws[m - 1], lnode(pts, m - 1, pts.len())))
    }
}

/// The value at `x` of the first `m` terms.
pub open spec fn qsum(pts: Seq<int>, ws: Seq<int>, m: nat, x: int) -> int
    decreases m,
{
    if m == 0 {
        0
    } else {
        qsum(pts, ws, (m - 1) as nat, x) + ws[m - 1] * iprod(pts, m - 1, pts.len(), x)
    }
}

proof fn lemma_qpoly(pts: Seq<int>, ws: Seq<int>, m: nat, x: int)
    requires
        m <= pts.len(),
    ensures
        heval(qpoly(pts, ws, m), x) == qsum(pts, ws, m, x),
        qpoly(pts, ws, m).len() <= pts.len(),
    decreases m,
{
    if m > 0 {
        lemma_qpoly(pts, ws, (m - 1) as nat, x);
        let node = lnode(pts, m - 1, pts.len());
        lemma_lnode(pts, m - 1, pts.len(), x);
        lemma_pscale(ws[m - 1], node, x);
        lemma_padd(qpoly(pts, ws, (m - 1) as nat), pscale(ws[m - 1], node), x);
    }
}

proof fn lemma_qsum_at_point(pts: Seq<int>, ws: Seq<int>, m: nat, k: int)
    requires
        m <= pts.len(),
        0 <= k < pts.len(),
    ensures
        qsum(pts, ws, m, pts[k]) == if k < m { ws[k] * iprod(pts, k, pts.len(), pts[k]) } else { 0 },
    decreases m,
{
    if m > 0 {
        lemma_qsum_at_point(pts, ws, (m - 1) as nat, k);
        if m - 1 != k {
            lemma_iprod_vanishes(pts, m - 1, pts.len(), k);
            assert(ws[m - 1] * 0 == 0) by (nonlinear_arith);
        }
    }
}

/// The product of two invertible numbers is invertible.
proof fn lemma_invertible_mul(a: int, b: int)
    requires
        invertible(a),
        invertible(b),
    ensures
        invertible(a * b),
{
    let m = modulus();
    let u = choose|u: int| #[trigger] ((a * u) % m) == 1;
    let v = choose|v: int| #[trigger] ((b * v) % m) == 1;
    assert((a * b) * (u * v) == (a * u) * (b * v)) by (nonlinear_arith);
    lemma_mul_mod_noop_left(a * u, b * v, m);
    lemma_mul_mod_noop_right(1, b * v, m);
    assert(((a * b) * (u * v)) % m == 1);
}

proof fn lemma_iprod_invertible(pts: Seq<int>, i: int, n: nat)
    requires
        separated(pts),
        0 <= i < pts.len(),
        n <= pts.len(),
    ensures
        invertible(iprod(pts, i, n, pts[i])),
    decreases n,
{
    let m = modulus();
    if n == 0 {
        lemma_small_mod(1, m as nat);
        assert((1int * 1int) % m == 1);
    } else {
        lemma_iprod_invertible(pts, i, (n - 1) as nat);
        if n - 1 != i {
            assert(gap_invertible(pts, i, n - 1));
            lemma_invertible_mul(iprod(pts, i, (n - 1) as nat, pts[i]), pts[i] - pts[n - 1]);
        }
    }
}

/// A list of field values as integers.
pub open spec fn ints(s: Seq<nat>) -> Seq<int> {
    s.map_values(|v: nat| v as int)
}

proof fn lemma_num(xs: Seq<nat>, i: int, n: nat)
    requires
        n <= xs.len(),
    ensures
        lagrange_num(xs, i, n) as int == iprod(ints(xs), i, n, 0) % modulus(),
    decreases n,
{
    let m = modulus();
    if n == 0 {
        lemma_small_mod(1, m as nat);
    } else {
        lemma_num(xs, i, (n - 1) as nat);
        if n - 1 != i {
            let a = iprod(ints(xs), i, (n - 1) as nat, 0);
            let b = 0 - xs[n - 1];
            assert(ints(xs)[n - 1] == xs[n - 1] as int);
            lemma_mul_mod_noop_left(a, b % m, m);
            lemma_mul_mod_noop_right(a, b, m);
        }
    }
}

proof fn lemma_den(xs: Seq<nat>, i: int, n: nat)
    requires
        n <= xs.len(),
        0 <= i < xs.len(),
    ensures
        lagrange_den(xs, i, n) as int == iprod(ints(xs), i, n, xs[i] as int) % modulus(),
    decreases n,
{
    let m = modulus();
    if n == 0 {
        lemma_small_mod(1, m as nat);
    } else {
        lemma_den(xs, i, (n - 1) as nat);
        if n - 1 != i {
            let a = iprod(ints(xs), i, (n - 1) as nat, xs[i] as int);
            let b = xs[i] - xs[n - 1];
            assert(ints(xs)[n - 1] == xs[n - 1] as int);
            lemma_mul_mod_noop_left(a, b % m, m);
            lemma_mul_mod_noop_right(a, b, m);
        }
    }
}

/// The weights of the node polynomials: each share value times the
/// inverse of its Lagrange denominator.
pub open spec fn weights(xs: Seq<nat>, ys: Seq<nat>) -> Seq<int> {
    Seq::new(xs.len(), |i: int| (ys[i] * field_inv(lagrange_den(xs, i, xs.len()))) as int)
}

proof fn lemma_sum(xs: Seq<nat>, ys: Seq<nat>, k: nat)
    requires
        k <= xs.len(),
        xs.len() == ys.len(),
    ensures
        lagrange_sum(xs, ys, k) as int == qsum(ints(xs), weights(xs, ys), k, 0) % modulus(),
    decreases k,
{
    let m = modulus();
    let n = xs.len();
    if k == 0 {
        lemma_small_mod(0, m as nat);
    } else {
        let i = k - 1;
        lemma_sum(xs, ys, (k - 1) as nat);
        lemma_num(xs, i, n);
        let s = qsum(ints(xs), weights(xs, ys), (k - 1) as nat, 0);
        let pr = iprod(ints(xs), i, n, 0);
        let num = lagrange_num(xs, i, n) as int;
        let inv = field_inv(lagrange_den(xs, i, n)) as int;
        let y = ys[i] as int;
        assert(num == pr % m);
        assert(lagrange_basis(xs, i) as int == (num * inv) % m);
        assert(weights(xs, ys)[i] == y * inv);
        // y * ((num * inv) % m) = (y * inv) * pr, modulo m
        lemma_mul_mod_noop_right(y, num * inv, m);
        assert(y * (num * inv) == (y * inv) * num) by (nonlinear_arith);
        lemma_mul_mod_noop_right(y * inv, pr, m);
        let term = (y * ((num * inv) % m)) % m;
        assert(term == ((y * inv) * pr) % m);
        lemma_add_mod_noop(s, (y * inv) * pr, m);
        lemma_mod_bound(s, m);
        lemma_mod_bound((y * inv) * pr, m);
        lemma_small_mod((((y * inv) * pr) % m) as nat, m as nat);
        lemma_small_mod((s % m) as nat, m as nat);
    }
}

proof fn lemma_heval_push(p: Seq<int>, c: int, x: nat)
    ensures
        heval(p.push(c), x as int) == heval(p, x as int) + c * power(x, p.len()),
    decreases p.len(),
{
    let xi = x as int;
    if p.len() == 0 {
        assert(p.push(c).drop_first() =~= Seq::<int>::empty());
        assert(heval(Seq::<int>::empty(), xi) == 0);
        assert(xi * 0 == 0) by (nonlinear_arith);
        assert(heval(p.push(c), xi) == c + xi * heval(Seq::<int>::empty(), xi));
        assert(power(x, 0) == 1);
        assert(c * 1 == c);
        assert(heval(p, xi) == 0);
    } else {
        let rest = p.drop_first();
        assert(p.push(c).drop_first() =~= rest.push(c));
        lemma_heval_push(rest, c, x);
        let h = heval(rest, xi);
        let pw = power(x, rest.len()) as int;
        assert(power(x, p.len()) == power(x, rest.len()) * x);
        assert(p.push(c)[0] == p[0]);
        assert(heval(p.push(c), xi) == p[0] + xi * heval(rest.push(c), xi));
        assert(heval(rest.push(c), xi) == h + c * pw);
        assert(heval(p, xi) == p[0] + xi * h);
        assert(xi * (h + c * pw) == xi * h + c * (pw * xi)) by (nonlinear_arith);
    }
}

proof fn lemma_poly_sum(cs: Seq<nat>, x: nat, n: nat)
    requires
        n <= cs.len(),
    ensures
        poly_sum(cs, x, n) == heval(ints(cs.subrange(0, n as int)), x as int),
    decreases n,
{
    if n == 0 {
        assert(ints(cs.subrange(0, 0)) =~= Seq::<int>::empty());
    } else {
        lemma_poly_sum(cs, x, (n - 1) as nat);
        let prev = ints(cs.subrange(0, n - 1));
        assert(ints(cs.subrange(0, n as int)) =~= prev.push(cs[n - 1] as int));
        lemma_heval_push(prev, cs[n - 1] as int, x);
    }
}

proof fn lemma_equal_mod(a: int, b: int)
    requires
        (a - b) % modulus() == 0,
    ensures
        a % modulus() == b % modulus(),
{
    let m = modulus();
    lemma_sub_mod_noop(a, b, m);
    lemma_mod_bound(a, m);
    lemma_mod_bound(b, m);
    let d = a % m - b % m;
    assert(d % m == 0);
    assert(d == 0) by (nonlinear_arith)
        requires
            -m < d < m,
            d % m == 0,
            m > 0,
    {
        vstd::arithmetic::div_mod::lemma_fundamental_div_mod(d, m);
    }
}

/// Lagrange interpolation at zero recovers the constant term: whenever the
/// share values are those of a polynomial with no more coefficients than
/// there are shares, at points that differ pairwise by invertible amounts
/// (as distinct points of the prime field do), the interpolated value is the
/// polynomial's constant term, the secret. The Lagrange denominators are
/// then all invertible, so reconstruction succeeds.
pub proof fn law_interpolation_recovers_secret(cs: Seq<nat>, xs: Seq<nat>, ys: Seq<nat>)
    requires
        1 <= cs.len() <= xs.len(),
        ys.len() == xs.len(),
        cs[0] < scalar_modulus(),
        forall|i: int| 0 <= i < xs.len() ==> #[trigger] ys[i] == poly_eval(cs, xs[i]),
        separated(ints(xs)),
    ensures
        interpolable(xs),
        interpolate_at_zero(xs, ys) == cs[0],
{
    let m = modulus();
    let n = xs.len();
    let pts = ints(xs);
    let ws = weights(xs, ys);
    let qp = qpoly(pts, ws, n);
    let pp = ints(cs);
    let neg = pscale(-1, qp);
    let rp = padd(pp, neg);
    assert(pts.len() == n);
    assert forall|k: int| 0 <= k < n implies #[trigger] lagrange_den(xs, k, n) != 0
        && heval(rp, pts[k]) % m == 0 by {
        let x = xs[k];
        assert(pts[k] == x as int);
        // the polynomial's value
        lemma_poly_sum(cs, x, cs.len());
        assert(cs.subrange(0, cs.len() as int) =~= cs);
        assert(heval(pp, x as int) % m == ys[k] as int);
        // the interpolant's value
        lemma_qpoly(pts, ws, n, x as int);
        lemma_qsum_at_point(pts, ws, n, k);
        let pr = iprod(pts, k, n, x as int);
        lemma_den(xs, k, n);
        let den = lagrange_den(xs, k, n);
        assert(den as int == pr % m);
        lemma_iprod_invertible(pts, k, n);
        let u = choose|u: int| #[trigger] ((pr * u) % m) == 1;
        lemma_mod_bound(u, m);
        lemma_mul_mod_noop_left(pr, u % m, m);
        lemma_mul_mod_noop_right(pr, u, m);
        assert(is_inverse(den, (u % m) as nat));
        lemma_inverse_unique(den, (u % m) as nat);
        let inv = field_inv(den) as int;
        assert(inv == u % m);
        assert((den * inv) % m == 1);
        assert(ws[k] == ys[k] * inv);
        assert(heval(qp, x as int) == ws[k] * pr);
        // (ys[k] * inv) * pr = ys[k] * (inv * pr), and inv * pr is 1 modulo m
        assert((ys[k] * inv) * pr == ys[k] * (inv * pr)) by (nonlinear_arith);
        lemma_mul_mod_noop_right(inv, pr, m);
        lemma_mul_is_commutative(inv, den as int);
        lemma_mul_mod_noop_right(ys[k] as int, inv * pr, m);
        assert(ys[k] < scalar_modulus());
        lemma_small_mod(ys[k], scalar_modulus());
        assert(heval(qp, x as int) % m == ys[k] as int);
        // the difference vanishes
        lemma_pscale(-1, qp, x as int);
        lemma_padd(pp, neg, x as int);
        lemma_sub_mod_noop(heval(pp, x as int), heval(qp, x as int), m);
        lemma_small_mod(0, m as nat);
        if den == 0 {
            assert((pr * u) % m == ((pr % m) * u) % m) by {
                lemma_mul_mod_noop_left(pr, u, m);
            }
            assert(0 * u == 0);
        }
    }
    lemma_qpoly(pts, ws, n, 0);
    lemma_pscale(-1, qp, 0);
    lemma_padd(pp, neg, 0);
    assert(rp.len() <= n);
    assert forall|i: int| 0 <= i < pts.len() implies #[trigger] heval(rp, pts[i]) % m == 0 by {
        assert(lagrange_den(xs, i, n) != 0);
    }
    lemma_vanishing(rp, pts, 0);
    assert(heval(pp, 0) == cs[0] as int) by {
        assert(0 * heval(pp.drop_first(), 0) == 0) by (nonlinear_arith);
    }
    lemma_equal_mod(heval(pp, 0), heval(qp, 0));
    lemma_sum(xs, ys, n);
    lemma_small_mod(cs[0], scalar_modulus());
}

} // verus!
