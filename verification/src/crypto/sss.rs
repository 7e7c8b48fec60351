//! Shamir secret sharing over the scalar field: polynomial evaluation,
//! splitting a secret into shares, and Lagrange interpolation at zero.

use vstd::prelude::*;
use vstd::arithmetic::div_mod::{lemma_small_mod, lemma_add_mod_noop, lemma_mul_mod_noop_right, lemma_mul_mod_noop_left};
use crate::crypto::field::{Scalar, scalar_modulus, field_add, field_sub, field_mul, field_neg, field_inv};
use crate::crypto::field::le_value;
use crate::crypto::interpolation::{law_interpolation_recovers_secret, separated, ints};

verus! {

/// `x` to the power `k`.
pub open spec fn power(x: nat, k: nat) -> nat
    decreases k,
{
    if k == 0 {
        1
    } else {
        power(x, (k - 1) as nat) * x
    }
}

/// The values of a list of scalars.
pub open spec fn values(s: Seq<Scalar>) -> Seq<nat> {
    s.map_values(|c: Scalar| c@)
}

/// The sum of the first `n` terms `cs[k] * x^k`, over the integers.
pub open spec fn poly_sum(cs: Seq<nat>, x: nat, n: nat) -> nat
    decreases n,
{
    if n == 0 {
        0
    } else {
        poly_sum(cs, x, (n - 1) as nat) + cs[n - 1] * power(x, (n - 1) as nat)
    }
}

/// The value at `x`, in the field, of the polynomial with coefficients
/// `cs` (constant term first).
pub open spec fn poly_eval(cs: Seq<nat>, x: nat) -> nat {
    poly_sum(cs, x, cs.len()) % scalar_modulus()
}

/// Evaluates the polynomial with coefficients `coeffs` (constant term
/// first) at `x`.
pub fn evaluate_polynomial(coeffs: &[Scalar], x: &Scalar) -> (r: Scalar)
    ensures
        r@ == poly_eval(values(coeffs@), x@),
{
    let ghost cs = values(coeffs@);
    let ghost q = scalar_modulus();
    let mut result = Scalar::zero();
    let mut x_pow = Scalar::one();
    proof {
        lemma_small_mod(0, q);
        lemma_small_mod(1, q);
    }
    let mut i: usize = 0;
    while i < coeffs.len()
        invariant
            cs == values(coeffs@),
            q == scalar_modulus(),
            0 <= i <= coeffs@.len(),
            result@ == poly_sum(cs, x@, i as nat) % q,
            x_pow@ == power(x@, i as nat) % q,
        decreases coeffs.len() - i,
    {
        let term = coeffs[i].mul(&x_pow);
        let ghost s = poly_sum(cs, x@, i as nat);
        let ghost p = power(x@, i as nat);
        let ghost c = cs[i as int];
        proof {
            assert(coeffs@[i as int]@ == c);
            lemma_mul_mod_noop_right(c as int, p as int, q as int);
            lemma_add_mod_noop(s as int, (c * p) as int, q as int);
            lemma_mul_mod_noop_left(p as int, x@ as int, q as int);
            lemma_small_mod((c * p) % q, q);
        }
        result = result.add(&term);
        x_pow = x_pow.mul(x);
        i = i + 1;
    }
    result
}

/// The shares of a polynomial: for participants 1 to `n`, the pair of the
/// participant's number and the polynomial's value there.
pub open spec fn is_share_list(shares: Seq<(Scalar, Scalar)>, cs: Seq<nat>, n: nat) -> bool {
    &&& shares.len() == n
    &&& forall|i: int| 0 <= i < n ==> (#[trigger] shares[i]).0@ == i + 1 && shares[i].1@ == poly_eval(cs, (i + 1) as nat)
}

/// The shares of the polynomial with coefficients `coeffs` for
/// participants 1 to `n`.
pub fn polynomial_shares(coeffs: &[Scalar], n: usize) -> (r: Vec<(Scalar, Scalar)>)
    ensures
        is_share_list(r@, values(coeffs@), n as nat),
{
    let mut shares: Vec<(Scalar, Scalar)> = Vec::new();
    let mut i: usize = 0;
    while i < n
        invariant
            0 <= i <= n,
            is_share_list(shares@, values(coeffs@), i as nat),
        decreases n - i,
    {
        let x = Scalar::from_u64((i + 1) as u64);
        let y = evaluate_polynomial(coeffs, &x);
        shares.push((x, y));
        i = i + 1;
    }
    shares
}

/// The coefficients of the sharing polynomial: the secret, then the value of
/// each 64-byte random block reduced by the modulus.
pub open spec fn split_coefficients(secret: nat, random_bytes: Seq<[u8; 64]>) -> Seq<nat> {
    Seq::new(random_bytes.len() + 1, |k: int| if k == 0 { secret } else { le_value(random_bytes[k - 1]@) % scalar_modulus() })
}

/// Splits `secret` into `n` shares, any `t` of which determine it: the
/// shares of a polynomial of `t` coefficients whose constant term is the
/// secret and whose other coefficients are drawn, as `Scalar::random` draws
/// them from a random generator, from the `t - 1` blocks of 64 random bytes.
pub fn split_secret(secret: Scalar, t: usize, n: usize, random_bytes: &[[u8; 64]]) -> (r: Vec<(Scalar, Scalar)>)
    requires
        0 < t <= n,
        random_bytes@.len() == t - 1,
    ensures
        is_share_list(r@, split_coefficients(secret@, random_bytes@), n as nat),
{
    let mut coeffs: Vec<Scalar> = Vec::new();
    coeffs.push(secret);
    let ghost cs = split_coefficients(secret@, random_bytes@);
    let mut k: usize = 1;
    while k < t
        invariant
            1 <= k <= t,
            random_bytes@.len() == t - 1,
            cs == split_coefficients(secret@, random_bytes@),
            coeffs@.len() == k,
            forall|j: int| 0 <= j < k ==> (#[trigger] coeffs@[j])@ == cs[j],
        decreases t - k,
    {
        let c = Scalar::from_bytes_wide(&random_bytes[k - 1]);
        coeffs.push(c);
        k = k + 1;
    }
    proof {
        assert(values(coeffs@) =~= cs);
    }
    polynomial_shares(coeffs.as_slice(), n)
}

/// Law: shares made by `split_secret` give the secret back. Any `t` of them,
/// taken at distinct positions (`sub[i]` is `shares[pos[i]]`), interpolate to
/// the secret, provided their participants' numbers differ by invertible
/// amounts, as distinct numbers of the prime field do; reconstruction then
/// meets its precondition.
pub proof fn law_split_then_reconstruct(
    secret: nat,
    random_bytes: Seq<[u8; 64]>,
    n: nat,
    shares: Seq<(Scalar, Scalar)>,
    pos: Seq<int>,
    sub: Seq<(Scalar, Scalar)>,
)
    requires
        secret < scalar_modulus(),
        random_bytes.len() + 1 <= n,
        is_share_list(shares, split_coefficients(secret, random_bytes), n),
        pos.len() == random_bytes.len() + 1,
        sub.len() == pos.len(),
        forall|i: int| 0 <= i < pos.len() ==> 0 <= #[trigger] pos[i] < n && sub[i] == shares[pos[i]],
        separated(ints(share_xs(sub))),
    ensures
        interpolable(share_xs(sub)),
        interpolate_at_zero(share_xs(sub), share_ys(sub)) == secret,
{
    let cs = split_coefficients(secret, random_bytes);
    let xs = share_xs(sub);
    let ys = share_ys(sub);
    assert(cs[0] == secret);
    assert forall|i: int| 0 <= i < xs.len() implies #[trigger] ys[i] == poly_eval(cs, xs[i]) by {
        let k = pos[i];
        assert(sub[i] == shares[k]);
        assert(shares[k].0@ == k + 1);
    }
    law_interpolation_recovers_secret(cs, xs, ys);
}

/// The participants' numbers of a list of shares.
pub open spec fn share_xs(shares: Seq<(Scalar, Scalar)>) -> Seq<nat> {
    shares.map_values(|s: (Scalar, Scalar)| s.0@)
}

/// The share values of a list of shares.
pub open spec fn share_ys(shares: Seq<(Scalar, Scalar)>) -> Seq<nat> {
    shares.map_values(|s: (Scalar, Scalar)| s.1@)
}

/// The numerator of the `i`-th Lagrange basis value at zero, over the first
/// `n` points: the product of `-x_j` for `j != i`.
pub open spec fn lagrange_num(xs: Seq<nat>, i: int, n: nat) -> nat
    decreases n,
{
    if n == 0 {
        1
    } else if n - 1 == i {
        lagrange_num(xs, i, (n - 1) as nat)
    } else {
        field_mul(lagrange_num(xs, i, (n - 1) as nat), field_neg(xs[n - 1]))
    }
}

/// The denominator of the `i`-th Lagrange basis value, over the first `n`
/// points: the product of `x_i - x_j` for `j != i`.
pub open spec fn lagrange_den(xs: Seq<nat>, i: int, n: nat) -> nat
    decreases n,
{
    if n == 0 {
        1
    } else if n - 1 == i {
        lagrange_den(xs, i, (n - 1) as nat)
    } else {
        field_mul(lagrange_den(xs, i, (n - 1) as nat), field_sub(xs[i], xs[n - 1]))
    }
}

/// The `i`-th Lagrange basis polynomial of the points `xs`, evaluated at
/// zero.
pub open spec fn lagrange_basis(xs: Seq<nat>, i: int) -> nat {
    field_mul(lagrange_num(xs, i, xs.len()), field_inv(lagrange_den(xs, i, xs.len())))
}

/// The sum of the first `m` terms `y_i * basis_i`.
pub open spec fn lagrange_sum(xs: Seq<nat>, ys: Seq<nat>, m: nat) -> nat
    decreases m,
{
    if m == 0 {
        0
    } else {
        field_add(lagrange_sum(xs, ys, (m - 1) as nat), field_mul(ys[m - 1], lagrange_basis(xs, m - 1)))
    }
}

/// The value at zero of the polynomial through the points `(xs[i], ys[i])`,
/// by Lagrange interpolation in the field.
pub open spec fn interpolate_at_zero(xs: Seq<nat>, ys: Seq<nat>) -> nat {
    lagrange_sum(xs, ys, xs.len())
}

/// Whether every Lagrange denominator of the points is invertible, as it is
/// when the participants' numbers are distinct.
pub open spec fn interpolable(xs: Seq<nat>) -> bool {
    forall|i: int| 0 <= i < xs.len() ==> #[trigger] lagrange_den(xs, i, xs.len()) != 0
}

/// Reconstructs the secret from shares by Lagrange interpolation at zero.
pub fn reconstruct_secret(shares: &[(Scalar, Scalar)]) -> (r: Scalar)
    requires
        interpolable(share_xs(shares@)),
    ensures
        r@ == interpolate_at_zero(share_xs(shares@), share_ys(shares@)),
{
    let ghost xs = share_xs(shares@);
    let ghost ys = share_ys(shares@);
    let mut secret = Scalar::zero();
    let mut i: usize = 0;
    while i < shares.len()
        invariant
            xs == share_xs(shares@),
            ys == share_ys(shares@),
            interpolable(xs),
            0 <= i <= shares@.len(),
            secret@ == lagrange_sum(xs, ys, i as nat),
        decreases shares.len() - i,
    {
        let mut num = Scalar::one();
        let mut den = Scalar::one();
        let mut j: usize = 0;
        while j < shares.len()
            invariant
                xs == share_xs(shares@),
                0 <= i < shares@.len(),
                0 <= j <= shares@.len(),
                num@ == lagrange_num(xs, i as int, j as nat),
                den@ == lagrange_den(xs, i as int, j as nat),
            decreases shares.len() - j,
        {
            if i != j {
                proof {
                    assert(shares@[j as int].0@ == xs[j as int]);
                    assert(shares@[i as int].0@ == xs[i as int]);
                }
                let neg = shares[j].0.neg();
                num = num.mul(&neg);
                let diff = shares[i].0.sub(&shares[j].0);
                den = den.mul(&diff);
            }
            j = j + 1;
        }
        proof {
            assert(lagrange_den(xs, i as int, xs.len()) != 0);
        }
        let inv = match den.invert() {
            Some(v) => v,
            None => {
                proof {
                    assert(false);
                }
                return Scalar::zero();
            }
        };
        let basis = num.mul(&inv);
        proof {
            assert(shares@[i as int].1@ == ys[i as int]);
        }
        let term = shares[i].1.mul(&basis);
        secret = secret.add(&term);
        i = i + 1;
    }
    secret
}

} // verus!
