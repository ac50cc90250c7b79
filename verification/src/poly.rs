//! Polynomials over the integers modulo `m`, as sequences of coefficients with
//! the constant term first: evaluation, division, and what division by
//! `X - x` has to do with the value at `x`. Also powers of two and their
//! logarithms, which count the rounds of folding.

use vstd::arithmetic::div_mod::{
    lemma_add_mod_noop, lemma_add_mod_noop_right, lemma_mod_bound, lemma_mul_mod_noop,
    lemma_mul_mod_noop_left, lemma_mul_mod_noop_right, lemma_small_mod, lemma_sub_mod_noop,
};
use vstd::prelude::*;

verus! {

/// `coeffs[from] + coeffs[from + 1] * x + coeffs[from + 2] * x^2 + ...`, in
/// the integers.
pub open spec fn horner_from(coeffs: Seq<nat>, x: nat, from: nat) -> nat
    decreases coeffs.len() - from,
{
    if from >= coeffs.len() {
        0
    } else {
        coeffs[from as int] + x * horner_from(coeffs, x, from + 1)
    }
}

/// The value at `x` of the polynomial with the coefficients `coeffs`, modulo `m`.
pub open spec fn poly_eval(coeffs: Seq<nat>, x: nat, m: nat) -> nat {
    horner_from(coeffs, x, 0) % m
}

/// `a - b` modulo `m`.
pub open spec fn sub_mod(a: nat, b: nat, m: nat) -> nat {
    (((a % m) + m - (b % m)) % (m as int)) as nat
}

/// The quotient of the polynomial `coeffs` by `X - x`, modulo `m`: its
/// coefficient of `X^i` is `coeffs[i + 1] + coeffs[i + 2] * x + ...`.
pub open spec fn linear_quotient(coeffs: Seq<nat>, x: nat, m: nat) -> Seq<nat> {
    Seq::new(
        if coeffs.len() == 0 { 0nat } else { (coeffs.len() - 1) as nat },
        |i: int| horner_from(coeffs, x, (i + 1) as nat) % m,
    )
}

/// Whether `r` is below `m` and its product with `a` leaves the remainder one.
pub open spec fn inverts(a: nat, r: nat, m: nat) -> bool {
    r < m && (a * r) % m == 1
}

/// The inverse of `a` modulo `m`.
pub open spec fn mod_inverse(a: nat, m: nat) -> nat {
    choose|r: nat| inverts(a, r, m)
}

/// The number of coefficients up to the last one that is not zero.
pub open spec fn trimmed_len(coeffs: Seq<nat>) -> nat
    decreases coeffs.len(),
{
    if coeffs.len() == 0 {
        0
    } else if coeffs.last() != 0 {
        coeffs.len()
    } else {
        trimmed_len(coeffs.drop_last())
    }
}

/// The degree: the highest power of `X` with a coefficient that is not zero,
/// and -1 for the zero polynomial.
pub open spec fn degree(coeffs: Seq<nat>) -> int {
    trimmed_len(coeffs) - 1
}

/// Whether `n` is a power of two.
pub open spec fn is_pow2(n: nat) -> bool
    decreases n,
{
    n == 1 || (n >= 2 && n % 2 == 0 && is_pow2(n / 2))
}

/// How often `n` can be halved before it reaches one: the logarithm to base
/// two, rounded down.
pub open spec fn log2(n: nat) -> nat
    decreases n,
{
    if n <= 1 {
        0
    } else {
        1 + log2(n / 2)
    }
}

/// Two to the power `k`.
pub open spec fn pow2(k: nat) -> nat
    decreases k,
{
    if k == 0 {
        1
    } else {
        2 * pow2((k - 1) as nat)
    }
}

/// Whether `n` is a power of two.
pub fn is_power_of_two(n: usize) -> (yes: bool)
    ensures
        yes == is_pow2(n as nat),
{
    if n == 0 {
        return false;
    }
    let mut rest: usize = n;
    while rest % 2 == 0
        invariant
            rest > 0,
            is_pow2(rest as nat) == is_pow2(n as nat),
        decreases rest,
    {
        rest = rest / 2;
    }
    rest == 1
}

/// A power of two is two to the power of its logarithm: of a vector of that
/// length, so many halvings leave one entry, no more and no fewer.
pub proof fn lemma_pow2_log2(n: nat)
    requires
        is_pow2(n),
    ensures
        pow2(log2(n)) == n,
    decreases n,
{
    if n >= 2 {
        lemma_pow2_log2(n / 2);
    }
}

/// The trimmed length is at most the length, everything from it on is zero,
/// and the coefficient just below it is not.
pub proof fn lemma_trimmed_len(coeffs: Seq<nat>)
    ensures
        trimmed_len(coeffs) <= coeffs.len(),
        forall|i: int| trimmed_len(coeffs) <= i < coeffs.len() ==> coeffs[i] == 0,
        trimmed_len(coeffs) > 0 ==> coeffs[trimmed_len(coeffs) - 1] != 0,
    decreases coeffs.len(),
{
    if coeffs.len() > 0 && coeffs.last() == 0 {
        let shorter = coeffs.drop_last();
        lemma_trimmed_len(shorter);
        assert forall|i: int| trimmed_len(coeffs) <= i < coeffs.len() implies coeffs[i] == 0 by {
            if i < shorter.len() {
                assert(shorter[i] == coeffs[i]);
            }
        }
    }
}

/// A length `k` with only zeros from it on, and with something other than zero
/// just below it unless it is zero, is the trimmed length.
pub proof fn lemma_trimmed_len_is(coeffs: Seq<nat>, k: nat)
    requires
        k <= coeffs.len(),
        forall|i: int| k <= i < coeffs.len() ==> coeffs[i] == 0,
        k > 0 ==> coeffs[k - 1] != 0,
    ensures
        trimmed_len(coeffs) == k,
    decreases coeffs.len(),
{
    if coeffs.len() > 0 && coeffs.last() == 0 {
        let shorter = coeffs.drop_last();
        assert forall|i: int| k <= i < shorter.len() implies shorter[i] == 0 by {
            assert(shorter[i] == coeffs[i]);
        }
        if k > 0 {
            assert(shorter[k - 1] == coeffs[k - 1]);
        }
        lemma_trimmed_len_is(shorter, k);
    }
}

/// Evaluation step: reducing the tail's value before it is multiplied changes
/// nothing modulo `m`.
pub proof fn lemma_horner_step(c: nat, x: nat, tail: nat, m: nat)
    requires
        m > 0,
    ensures
        (c + x * (tail % m)) % m == (c + x * tail) % m,
{
    lemma_mul_mod_noop_right(x as int, tail as int, m as int);
    lemma_add_mod_noop(c as int, (x * (tail % m)) as int, m as int);
    lemma_add_mod_noop(c as int, (x * tail) as int, m as int);
}

/// One step of an evaluation from the highest coefficient down, with the
/// tail's value reduced and multiplied from the left.
pub proof fn lemma_eval_step(c: nat, x: nat, tail: nat, m: nat)
    requires
        m > 0,
    ensures
        (c + ((tail % m) * x) % m) % m == (c + x * tail) % m,
{
    lemma_mul_mod_noop_left(tail as int, x as int, m as int);
    lemma_add_mod_noop_right(c as int, (tail * x) as int, m as int);
    assert(tail * x == x * tail) by (nonlinear_arith);
}

/// In the integers: `f(t) - f(x) = (t - x) * q(t)`, where `q` holds the
/// unreduced coefficients of the quotient of `f` by `X - x`. Stated for the
/// tails from `from` on.
proof fn lemma_quotient_tail(coeffs: Seq<nat>, q: Seq<nat>, x: nat, t: nat, from: nat)
    requires
        coeffs.len() >= 1,
        q.len() == coeffs.len() - 1,
        forall|i: int| 0 <= i < q.len() ==> q[i] == horner_from(coeffs, x, (i + 1) as nat),
    ensures
        horner_from(coeffs, t, from) - horner_from(coeffs, x, from) == (t - x) * horner_from(
            q,
            t,
            from,
        ),
    decreases coeffs.len() - from,
{
    if from >= coeffs.len() {
        assert(horner_from(q, t, from) == 0);
        assert((t - x) * 0 == 0);
    } else if from == coeffs.len() - 1 {
        assert(horner_from(coeffs, t, from + 1) == 0);
        assert(horner_from(coeffs, x, from + 1) == 0);
        assert(horner_from(q, t, from) == 0);
        assert(t * 0 == 0 && x * 0 == 0 && (t - x) * 0 == 0);
    } else {
        lemma_quotient_tail(coeffs, q, x, t, from + 1);
        let ht = horner_from(coeffs, t, from + 1) as int;
        let hx = horner_from(coeffs, x, from + 1) as int;
        let qt = horner_from(q, t, from + 1) as int;
        let ti = t as int;
        let xi = x as int;
        assert(ht - hx == (ti - xi) * qt);
        assert(q[from as int] == hx);
        assert(horner_from(q, t, from) == hx + ti * qt);
        assert(horner_from(coeffs, t, from) == coeffs[from as int] + ti * ht);
        assert(horner_from(coeffs, x, from) == coeffs[from as int] + xi * hx);
        assert(ti * ht - xi * hx == (ti - xi) * (hx + ti * qt)) by (nonlinear_arith)
            requires
                ht - hx == (ti - xi) * qt,
        ;
    }
}

/// Sequences whose coefficients agree modulo `m` have values that agree
/// modulo `m`.
pub proof fn lemma_horner_congruent(a: Seq<nat>, b: Seq<nat>, t: nat, m: nat, from: nat)
    requires
        m > 0,
        a.len() == b.len(),
        forall|i: int| 0 <= i < a.len() ==> a[i] % m == b[i] % m,
    ensures
        horner_from(a, t, from) % m == horner_from(b, t, from) % m,
    decreases a.len() - from,
{
    if from < a.len() {
        lemma_horner_congruent(a, b, t, m, from + 1);
        let ha = horner_from(a, t, from + 1);
        let hb = horner_from(b, t, from + 1);
        lemma_horner_step(a[from as int], t, ha, m);
        lemma_horner_step(b[from as int], t, hb, m);
        lemma_add_mod_noop(a[from as int] as int, (t * (ha % m)) as int, m as int);
        lemma_add_mod_noop(b[from as int] as int, (t * (hb % m)) as int, m as int);
    }
}

/// Division by `X - x` leaves the value at `x`: for every `t`,
/// `f(t) = q(t) * (t - x) + f(x)` modulo `m`, where `q` is the quotient of `f`
/// by `X - x`.
pub proof fn lemma_linear_quotient_identity(coeffs: Seq<nat>, x: nat, t: nat, m: nat)
    requires
        m > 0,
    ensures
        poly_eval(coeffs, t, m) == (poly_eval(linear_quotient(coeffs, x, m), t, m) * sub_mod(
            t,
            x,
            m,
        ) + poly_eval(coeffs, x, m)) % m,
{
    if coeffs.len() == 0 {
        assert(horner_from(linear_quotient(coeffs, x, m), t, 0) == 0);
        lemma_small_mod(0, m);
        assert(0 * sub_mod(t, x, m) == 0);
        return ;
    }
    let raw = Seq::new((coeffs.len() - 1) as nat, |i: int| horner_from(coeffs, x, (i + 1) as nat));
    let q = linear_quotient(coeffs, x, m);
    lemma_quotient_tail(coeffs, raw, x, t, 0);
    assert forall|i: int| 0 <= i < raw.len() implies raw[i] % m == q[i] % m by {
        lemma_small_mod(q[i], m);
        lemma_mod_bound(raw[i] as int, m as int);
    }
    lemma_horner_congruent(raw, q, t, m, 0);
    let ft = horner_from(coeffs, t, 0) as int;
    let fx = horner_from(coeffs, x, 0) as int;
    let qr = horner_from(raw, t, 0) as int;
    let qq = horner_from(q, t, 0) as int;
    let mi = m as int;
    let d = sub_mod(t, x, m) as int;
    assert(ft == (t - x) * qr + fx);
    // (t - x) and sub_mod(t, x, m) agree modulo m
    assert(d % mi == (t - x) % mi) by {
        lemma_sub_mod_noop(t as int, x as int, mi);
        lemma_mod_bound(t as int, mi);
        lemma_mod_bound(x as int, mi);
        let u = (t % m) as int - (x % m) as int;
        assert((u + mi) % mi == u % mi) by {
            vstd::arithmetic::div_mod::lemma_mod_add_multiples_vanish(u, mi);
        }
        lemma_mod_bound(u + mi, mi);
        lemma_small_mod(d as nat, m);
    }
    // the product, reduced factor by factor
    let a = (t - x) as int;
    let qm = qq % mi;
    assert(qm == qr % mi);
    assert((qm * d) % mi == (a * qr) % mi) by {
        lemma_mul_mod_noop(a, qr, mi);
        assert((a * qr) % mi == ((a % mi) * (qr % mi)) % mi);
        lemma_mul_mod_noop(qm, d, mi);
        assert((qm * d) % mi == ((qm % mi) * (d % mi)) % mi);
        lemma_mod_bound(qq, mi);
        lemma_small_mod(qm as nat, m);
        assert(qm % mi == qm);
        assert((qm % mi) * (d % mi) == (a % mi) * (qr % mi)) by (nonlinear_arith)
            requires
                qm % mi == qr % mi,
                d % mi == a % mi,
        ;
    }
    let fm = fx % mi;
    lemma_mod_bound(fx, mi);
    lemma_small_mod(fm as nat, m);
    lemma_add_mod_noop(a * qr, fx, mi);
    assert(ft % mi == (((a * qr) % mi) + fm) % mi);
    lemma_add_mod_noop(qm * d, fm, mi);
    assert((qm * d + fm) % mi == (((qm * d) % mi) + fm) % mi);
}

/// The coefficient of `X^k`, which is zero beyond the sequence.
pub open spec fn coeff(c: Seq<nat>, k: int) -> nat {
    if 0 <= k < c.len() {
        c[k]
    } else {
        0
    }
}

/// The sum of `q[i] * d[k - i]` over `i` below `j`.
pub open spec fn conv_upto(q: Seq<nat>, d: Seq<nat>, k: int, j: nat) -> nat
    decreases j,
{
    if j == 0 {
        0
    } else {
        conv_upto(q, d, k, (j - 1) as nat) + coeff(q, j - 1) * coeff(d, k - (j - 1))
    }
}

/// The coefficient of `X^k` in the product of the polynomials `q` and `d`, in
/// the integers.
pub open spec fn product_coeff(q: Seq<nat>, d: Seq<nat>, k: int) -> nat {
    if k < 0 {
        0
    } else {
        conv_upto(q, d, k, (k + 1) as nat)
    }
}

/// Whether the coefficients of `X^k` in `q * d + r` and in `num` agree modulo `m`.
pub open spec fn agrees_at(
    num: Seq<nat>,
    d: Seq<nat>,
    q: Seq<nat>,
    r: Seq<nat>,
    m: nat,
    k: int,
) -> bool {
    (product_coeff(q, d, k) + coeff(r, k)) % m == coeff(num, k) % m
}

/// Whether `num = q * d + r` as polynomials modulo `m`.
pub open spec fn division_identity(
    num: Seq<nat>,
    d: Seq<nat>,
    q: Seq<nat>,
    r: Seq<nat>,
    m: nat,
) -> bool {
    forall|k: int| 0 <= k ==> #[trigger] agrees_at(num, d, q, r, m, k)
}

/// Whether `q` and `r` are the quotient and the remainder of `num` by `d`
/// modulo `m`: `num = q * d + r`, the degree of `r` is below that of `d`, and
/// neither `q` nor `r` has a coefficient of `m` or more, or ends in zero.
pub open spec fn is_division(
    num: Seq<nat>,
    d: Seq<nat>,
    q: Seq<nat>,
    r: Seq<nat>,
    m: nat,
) -> bool {
    &&& division_identity(num, d, q, r, m)
    &&& r.len() < trimmed_len(d)
    &&& trimmed_len(q) == q.len()
    &&& trimmed_len(r) == r.len()
    &&& forall|k: int| 0 <= k < q.len() ==> q[k] < m
    &&& forall|k: int| 0 <= k < r.len() ==> r[k] < m
}

/// A product with the zero polynomial has no coefficient but zero.
pub proof fn lemma_conv_zero(q: Seq<nat>, d: Seq<nat>, k: int, j: nat)
    requires
        forall|i: int| 0 <= i < q.len() ==> q[i] == 0,
    ensures
        conv_upto(q, d, k, j) == 0,
    decreases j,
{
    if j > 0 {
        lemma_conv_zero(q, d, k, (j - 1) as nat);
        assert(coeff(q, j - 1) == 0);
        assert(0 * coeff(d, k - (j - 1)) == 0);
    }
}

/// Setting a coefficient of `q` that was zero to `v`, at `X^p`, adds `v * d[k - p]`
/// to the sum, once the sum reaches `p`.
pub proof fn lemma_conv_update(q: Seq<nat>, d: Seq<nat>, k: int, j: nat, p: int, v: nat)
    requires
        0 <= p < q.len(),
        q[p] == 0,
    ensures
        conv_upto(q.update(p, v), d, k, j) == conv_upto(q, d, k, j) + (if p < j {
            v * coeff(d, k - p)
        } else {
            0
        }),
    decreases j,
{
    if j > 0 {
        lemma_conv_update(q, d, k, (j - 1) as nat, p, v);
        let q2 = q.update(p, v);
        if j - 1 == p {
            assert(coeff(q2, j - 1) == v);
            assert(coeff(q, j - 1) == 0);
            assert(0 * coeff(d, k - (j - 1)) == 0);
        } else {
            assert(coeff(q2, j - 1) == coeff(q, j - 1));
        }
    }
}

/// Dropping zeros from the end of `q` changes no sum.
pub proof fn lemma_conv_take(q: Seq<nat>, d: Seq<nat>, k: int, j: nat, len: int)
    requires
        0 <= len <= q.len(),
        forall|i: int| len <= i < q.len() ==> q[i] == 0,
    ensures
        conv_upto(q.take(len), d, k, j) == conv_upto(q, d, k, j),
    decreases j,
{
    if j > 0 {
        lemma_conv_take(q, d, k, (j - 1) as nat, len);
        assert(coeff(q.take(len), j - 1) == coeff(q, j - 1));
    }
}

/// Adding what was subtracted gives the first number back, modulo `m`.
pub proof fn lemma_sub_mod_cancel(a: nat, b: nat, m: nat)
    requires
        m > 0,
    ensures
        (b + sub_mod(a, b, m)) % m == a % m,
{
    let mi = m as int;
    let am = (a % m) as int;
    let bm = (b % m) as int;
    lemma_mod_bound(a as int, mi);
    lemma_mod_bound(b as int, mi);
    let s = sub_mod(a, b, m) as int;
    assert(s == (am + mi - bm) % mi);
    lemma_add_mod_noop(b as int, s, mi);
    lemma_mod_bound(am + mi - bm, mi);
    lemma_small_mod(s as nat, m);
    // (bm + (am + m - bm) % m) % m == (bm + am + m - bm) % m == am
    lemma_add_mod_noop(bm, am + mi - bm, mi);
    lemma_small_mod(bm as nat, m);
    assert((bm + (am + mi - bm)) == am + mi);
    vstd::arithmetic::div_mod::lemma_mod_add_multiples_vanish(am, mi);
    lemma_small_mod(am as nat, m);
}

/// One step of long division keeps `num = q * d + r`: the quotient gets the
/// coefficient `v` at `X^p`, where it had none, and `v * X^p * d` is taken
/// from the remainder.
pub proof fn lemma_division_step(
    num: Seq<nat>,
    d: Seq<nat>,
    q: Seq<nat>,
    r: Seq<nat>,
    r2: Seq<nat>,
    m: nat,
    p: int,
    top: int,
    v: nat,
)
    requires
        m > 0,
        division_identity(num, d, q, r, m),
        0 <= p < q.len(),
        q[p] == 0,
        p <= top < r.len(),
        r2.len() == r.len(),
        forall|t: int| t > top - p ==> coeff(d, t) == 0,
        forall|k: int|
            0 <= k < r.len() ==> r2[k] == (if p <= k <= top {
                sub_mod(r[k], v * coeff(d, k - p), m)
            } else {
                r[k]
            }),
    ensures
        division_identity(num, d, q.update(p, v), r2, m),
{
    let q2 = q.update(p, v);
    assert forall|k: int| 0 <= k implies #[trigger] agrees_at(num, d, q2, r2, m, k) by {
        assert(agrees_at(num, d, q, r, m, k));
        lemma_conv_update(q, d, k, (k + 1) as nat, p, v);
        let pc = product_coeff(q, d, k) as int;
        let mi = m as int;
        if p <= k <= top {
            let b = v * coeff(d, k - p);
            lemma_sub_mod_cancel(r[k], b, m);
            // (pc + b + r2[k]) % m == (pc + r[k]) % m
            lemma_add_mod_noop(pc, (b + r2[k]) as int, mi);
            lemma_add_mod_noop(pc, r[k] as int, mi);
            assert(product_coeff(q2, d, k) + coeff(r2, k) == pc + (b + r2[k]));
        } else if k > top {
            assert(coeff(d, k - p) == 0);
            assert(v * 0 == 0);
            assert(coeff(r2, k) == coeff(r, k));
        } else {
            assert(coeff(r2, k) == coeff(r, k));
        }
    }
}

/// The coefficients of a product with a polynomial of two coefficients.
pub proof fn lemma_product_linear(q: Seq<nat>, d: Seq<nat>, k: int)
    requires
        d.len() == 2,
        0 <= k,
    ensures
        product_coeff(q, d, k) == coeff(q, k) * d[0] + coeff(q, k - 1) * d[1],
{
    if k >= 1 {
        lemma_conv_low(q, d, k, (k - 1) as nat);
        assert(conv_upto(q, d, k, k as nat) == conv_upto(q, d, k, (k - 1) as nat) + coeff(
            q,
            k - 1,
        ) * coeff(d, 1));
    } else {
        assert(coeff(q, -1) == 0);
        assert(0 * d[1] == 0);
        assert(conv_upto(q, d, k, 0) == 0);
    }
    assert(conv_upto(q, d, k, (k + 1) as nat) == conv_upto(q, d, k, k as nat) + coeff(q, k)
        * coeff(d, 0));
}

/// The terms that reach beyond the two coefficients of `d` are zero.
proof fn lemma_conv_low(q: Seq<nat>, d: Seq<nat>, k: int, j: nat)
    requires
        d.len() == 2,
        j <= k - 1,
    ensures
        conv_upto(q, d, k, j) == 0,
    decreases j,
{
    if j > 0 {
        lemma_conv_low(q, d, k, (j - 1) as nat);
        assert(coeff(d, k - (j - 1)) == 0);
        assert(coeff(q, j - 1) * 0 == 0);
    }
}

/// The tail of an evaluation depends only on the coefficients from `from` on.
pub proof fn lemma_horner_from_agree(a: Seq<nat>, b: Seq<nat>, x: nat, from: nat)
    requires
        forall|k: int| from <= k ==> coeff(a, k) == coeff(b, k),
    ensures
        horner_from(a, x, from) == horner_from(b, x, from),
    decreases (if a.len() >= b.len() { a.len() } else { b.len() }) - from,
{
    if from >= a.len() && from >= b.len() {
    } else {
        lemma_horner_from_agree(a, b, x, from + 1);
        assert(coeff(a, from as int) == coeff(b, from as int));
        if from >= a.len() {
            lemma_horner_zero_tail(a, x, from + 1);
            assert(x * 0 == 0);
        }
        if from >= b.len() {
            lemma_horner_zero_tail(b, x, from + 1);
            assert(x * 0 == 0);
        }
    }
}

/// The tail of an evaluation over coefficients that are all zero is zero.
pub proof fn lemma_horner_zero_tail(c: Seq<nat>, x: nat, from: nat)
    requires
        forall|k: int| from <= k < c.len() ==> c[k] == 0,
    ensures
        horner_from(c, x, from) == 0,
    decreases c.len() - from,
{
    if from < c.len() {
        lemma_horner_zero_tail(c, x, from + 1);
        assert(x * 0 == 0);
    }
}

/// Polynomials with the same coefficients have the same trimmed length.
pub proof fn lemma_trimmed_len_agree(a: Seq<nat>, b: Seq<nat>)
    requires
        forall|k: int| 0 <= k ==> coeff(a, k) == coeff(b, k),
    ensures
        trimmed_len(a) == trimmed_len(b),
{
    lemma_trimmed_len(a);
    let ta = trimmed_len(a);
    if ta > 0 {
        assert(coeff(a, ta - 1) == coeff(b, ta - 1));
    }
    assert forall|k: int| ta <= k < b.len() implies b[k] == 0 by {
        assert(coeff(a, k) == coeff(b, k));
    }
    lemma_trimmed_len_is(b, ta);
}

/// From `a * d0 + b = c` and `d0 = -z`, both modulo `m`: `b = c + z * a`
/// modulo `m`.
proof fn lemma_solve_linear(a: nat, b: nat, c: nat, z: nat, d0: nat, m: nat)
    requires
        m > 0,
        (d0 + z) % m == 0,
        (a * d0 + b) % m == c % m,
    ensures
        b % m == (c + z * a) % m,
{
    let mi = m as int;
    let t = a * (d0 + z);
    assert(t % m == 0) by {
        lemma_mul_mod_noop_right(a as int, (d0 + z) as int, mi);
        assert(a * 0 == 0);
        lemma_small_mod(0, m);
    }
    assert(a * d0 + b + z * a == b + t) by (nonlinear_arith)
        requires
            t == a * (d0 + z),
    ;
    lemma_add_mod_noop((a * d0 + b) as int, (z * a) as int, mi);
    lemma_add_mod_noop(c as int, (z * a) as int, mi);
    lemma_add_mod_noop(b as int, t as int, mi);
    lemma_mod_bound(b as int, mi);
    lemma_small_mod((b % m) as nat, m);
}

/// Division by `X - z`, coefficient by coefficient: the quotient's
/// coefficient of `X^(k - 1)` is the tail of the evaluation at `z` from `k` on.
proof fn lemma_linear_division_coeff(
    num: Seq<nat>,
    d: Seq<nat>,
    q: Seq<nat>,
    r: Seq<nat>,
    z: nat,
    m: nat,
    k: int,
)
    requires
        m > 0,
        is_division(num, d, q, r, m),
        d.len() == 2,
        d[1] == 1,
        (d[0] + z) % m == 0,
        k >= 1,
    ensures
        coeff(q, k - 1) == horner_from(num, z, k as nat) % m,
    decreases q.len() + num.len() + 2 - k,
{
    if k > q.len() && k >= num.len() {
        lemma_small_mod(0, m);
    } else {
        lemma_linear_division_coeff(num, d, q, r, z, m, k + 1);
        lemma_product_linear(q, d, k);
        assert(agrees_at(num, d, q, r, m, k));
        assert(trimmed_len(d) == 2) by {
            assert(d.last() == 1);
        }
        assert(coeff(r, k) == 0);
        let a = coeff(q, k);
        let b = coeff(q, k - 1);
        let c = coeff(num, k);
        let tail = horner_from(num, z, (k + 1) as nat);
        assert(b * 1 == b);
        lemma_solve_linear(a, b, c, z, d[0], m);
        // b = c + z * (tail % m) = c + z * tail, modulo m
        lemma_horner_step(c, z, tail, m);
        assert(b < m);
        lemma_small_mod(b, m);
        if k < num.len() {
            assert(horner_from(num, z, k as nat) == c + z * tail);
        } else {
            assert(horner_from(num, z, k as nat) == 0);
            assert(tail == 0);
            assert(z * 0 == 0);
        }
    }
}

/// The remainder theorem, and the quotient that goes with it: division of
/// `num` by `X - z` modulo `m` leaves the value of `num` at `z`, and the
/// quotient has the coefficients of `linear_quotient`.
pub proof fn lemma_division_by_linear(
    num: Seq<nat>,
    d: Seq<nat>,
    q: Seq<nat>,
    r: Seq<nat>,
    z: nat,
    m: nat,
)
    requires
        m > 0,
        is_division(num, d, q, r, m),
        d.len() == 2,
        d[1] == 1,
        (d[0] + z) % m == 0,
    ensures
        forall|k: int| 0 <= k ==> coeff(q, k) == coeff(linear_quotient(num, z, m), k),
        coeff(r, 0) == poly_eval(num, z, m),
        r.len() <= 1,
{
    let lq = linear_quotient(num, z, m);
    assert forall|k: int| 0 <= k implies coeff(q, k) == coeff(lq, k) by {
        lemma_linear_division_coeff(num, d, q, r, z, m, k + 1);
        if k >= lq.len() {
            lemma_horner_zero_tail(num, z, (k + 1) as nat);
            lemma_small_mod(0, m);
        }
    }
    assert(trimmed_len(d) == 2) by {
        assert(d.last() == 1);
    }
    lemma_linear_division_coeff(num, d, q, r, z, m, 1);
    lemma_product_linear(q, d, 0);
    assert(agrees_at(num, d, q, r, m, 0));
    let a = coeff(q, 0);
    let b = coeff(r, 0);
    let c = coeff(num, 0);
    let tail = horner_from(num, z, 1);
    assert(coeff(q, -1) * 1 == 0);
    lemma_solve_linear(a, b, c, z, d[0], m);
    lemma_horner_step(c, z, tail, m);
    lemma_small_mod(b, m);
    if num.len() == 0 {
        assert(tail == 0);
        assert(z * 0 == 0);
    }
}

} // verus!
