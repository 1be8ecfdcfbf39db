use crate::ring::{NegacyclicRing, eval_poly, is_least_inverse, is_least_root_over, padded, reduced};
use vstd::arithmetic::div_mod::*;
use vstd::arithmetic::power::*;
use vstd::arithmetic::power2::*;
use vstd::prelude::*;

verus! {

/// f(0) + f(1) + ... + f(n - 1).
pub open spec fn sum(f: spec_fn(int) -> int, n: nat) -> int
    decreases n,
{
    if n == 0 {
        0
    } else {
        sum(f, (n - 1) as nat) + f(n - 1)
    }
}

/// 1 + r + ... + r^(n-1).
pub open spec fn geo(r: int, n: nat) -> int {
    sum(|i: int| pow(r, i as nat), n)
}

proof fn lemma_sum_ext(f: spec_fn(int) -> int, g: spec_fn(int) -> int, n: nat)
    requires
        forall|i: int| 0 <= i < n ==> #[trigger] f(i) == g(i),
    ensures
        sum(f, n) == sum(g, n),
    decreases n,
{
    if n > 0 {
        lemma_sum_ext(f, g, (n - 1) as nat);
    }
}

proof fn lemma_sum_congruent(f: spec_fn(int) -> int, g: spec_fn(int) -> int, n: nat, q: int)
    requires
        q >= 2,
        forall|i: int| 0 <= i < n ==> #[trigger] f(i) % q == g(i) % q,
    ensures
        sum(f, n) % q == sum(g, n) % q,
    decreases n,
{
    if n > 0 {
        let m = (n - 1) as nat;
        lemma_sum_congruent(f, g, m, q);
        lemma_add_mod_noop(sum(f, m), f(m as int), q);
        lemma_add_mod_noop(sum(g, m), g(m as int), q);
    }
}

proof fn lemma_sum_add(f: spec_fn(int) -> int, g: spec_fn(int) -> int, n: nat)
    ensures
        sum(|i: int| f(i) + g(i), n) == sum(f, n) + sum(g, n),
    decreases n,
{
    if n > 0 {
        lemma_sum_add(f, g, (n - 1) as nat);
    }
}

proof fn lemma_sum_scale(f: spec_fn(int) -> int, c: int, n: nat)
    ensures
        sum(|i: int| c * f(i), n) == c * sum(f, n),
    decreases n,
{
    if n > 0 {
        let m = (n - 1) as nat;
        lemma_sum_scale(f, c, m);
        assert(c * sum(f, m) + c * f(m as int) == c * (sum(f, m) + f(m as int))) by (nonlinear_arith);
    }
}

proof fn lemma_sum_scale_ext(f: spec_fn(int) -> int, g: spec_fn(int) -> int, c: int, n: nat)
    requires
        forall|i: int| 0 <= i < n ==> #[trigger] g(i) == c * f(i),
    ensures
        sum(g, n) == c * sum(f, n),
{
    lemma_sum_scale(f, c, n);
    lemma_sum_ext(g, |i: int| c * f(i), n);
}

proof fn lemma_sum_swap(f: spec_fn(int, int) -> int, n: nat, m: nat)
    ensures
        sum(|i: int| sum(|j: int| f(i, j), m), n) == sum(|j: int| sum(|i: int| f(i, j), n), m),
    decreases n,
{
    if n > 0 {
        let k = (n - 1) as nat;
        lemma_sum_swap(f, k, m);
        let big_f = |i: int| sum(|j: int| f(i, j), m);
        let g = |j: int| sum(|i: int| f(i, j), k);
        let h = |j: int| f(k as int, j);
        let rhs = |j: int| sum(|i: int| f(i, j), n);
        assert(sum(big_f, n) == sum(big_f, k) + big_f(k as int));
        assert(sum(big_f, k) == sum(g, m));
        assert(big_f(k as int) == sum(|j: int| f(k as int, j), m));
        lemma_sum_ext(|j: int| f(k as int, j), h, m);
        lemma_sum_add(g, h, m);
        assert forall|j: int| 0 <= j < m implies #[trigger] rhs(j) == (|j: int| g(j) + h(j))(j) by {
            assert(sum(|i: int| f(i, j), n) == sum(|i: int| f(i, j), k) + f(k as int, j));
        }
        lemma_sum_ext(rhs, |j: int| g(j) + h(j), m);
    } else {
        lemma_sum_zero_terms(m);
        lemma_sum_ext(|j: int| sum(|i: int| f(i, j), 0), |j: int| 0int, m);
    }
}

proof fn lemma_sum_zero_terms(m: nat)
    ensures
        sum(|j: int| 0int, m) == 0,
    decreases m,
{
    if m > 0 {
        lemma_sum_zero_terms((m - 1) as nat);
    }
}

/// A sum whose terms vanish modulo q except the one at `k`.
proof fn lemma_sum_single(f: spec_fn(int) -> int, n: nat, k: int, q: int)
    requires
        q >= 2,
        0 <= k < n,
        forall|i: int| 0 <= i < n && i != k ==> #[trigger] f(i) % q == 0,
    ensures
        sum(f, n) % q == f(k) % q,
    decreases n,
{
    let m = (n - 1) as nat;
    if k == m {
        lemma_sum_zero(f, m, q);
        lemma_add_mod_noop(sum(f, m), f(k), q);
        lemma_small_mod(0, q as nat);
        lemma_mod_twice(f(k), q);
    } else {
        lemma_sum_single(f, m, k, q);
        lemma_add_mod_noop(sum(f, m), f(m as int), q);
        lemma_mod_twice(f(k), q);
    }
}

proof fn lemma_sum_zero(f: spec_fn(int) -> int, n: nat, q: int)
    requires
        q >= 2,
        forall|i: int| 0 <= i < n ==> #[trigger] f(i) % q == 0,
    ensures
        sum(f, n) % q == 0,
    decreases n,
{
    lemma_small_mod(0, q as nat);
    if n > 0 {
        let m = (n - 1) as nat;
        lemma_sum_zero(f, m, q);
        assert(f(m as int) % q == 0);
        lemma_add_mod_noop(sum(f, m), f(m as int), q);
        lemma_small_mod(0, q as nat);
    }
}

proof fn lemma_eval_is_sum(a: Seq<i32>, w: int, j: nat)
    ensures
        eval_poly(a, w, j) == sum(|t: int| a[t] * pow(w, t as nat), j),
    decreases j,
{
    if j > 0 {
        lemma_eval_is_sum(a, w, (j - 1) as nat);
    }
}

proof fn lemma_geo_split(r: int, h: nat, m: nat)
    ensures
        geo(r, h + m) == geo(r, h) + pow(r, h) * geo(r, m),
    decreases m,
{
    if m > 0 {
        let k = (m - 1) as nat;
        lemma_geo_split(r, h, k);
        assert(geo(r, h + m) == geo(r, h + k) + pow(r, h + k));
        assert(geo(r, m) == geo(r, k) + pow(r, k));
        lemma_pow_adds(r, h, k);
        let ph = pow(r, h);
        assert(ph * (geo(r, k) + pow(r, k)) == ph * geo(r, k) + ph * pow(r, k)) by (nonlinear_arith);
    }
}

proof fn lemma_geo_double(r: int, h: nat)
    ensures
        geo(r, 2 * h) == (1 + pow(r, h)) * geo(r, h),
{
    lemma_geo_split(r, h, h);
    assert(h + h == 2 * h);
    assert((1 + pow(r, h)) * geo(r, h) == geo(r, h) + pow(r, h) * geo(r, h)) by (nonlinear_arith);
}

proof fn lemma_odd_power_of_minus_one(x: int, d: nat, q: int)
    requires
        q >= 2,
        x % q == q - 1,
        d % 2 == 1,
    ensures
        pow(x, d) % q == q - 1,
    decreases d,
{
    if d == 1 {
        lemma_pow1(x);
    } else {
        let e = (d - 2) as nat;
        lemma_odd_power_of_minus_one(x, e, q);
        lemma_pow_adds(x, e, 2);
        lemma_square_is_pow2(x);
        lemma_mul_mod_noop(x, x, q);
        assert((q - 1) * (q - 1) == q * (q - 2) + 1) by (nonlinear_arith);
        lemma_mod_multiples_vanish(q - 2, 1, q);
        lemma_small_mod(1, q as nat);
        assert((x * x) % q == 1);
        lemma_mul_mod_noop(pow(x, e), x * x, q);
        lemma_small_mod((q - 1) as nat, q as nat);
    }
}

/// For psi with psi^n = -1 (mod q), n = 2^k, and 0 < d < n, the geometric sum of
/// (psi^2)^d over n terms vanishes modulo q.
proof fn lemma_geo_vanishes(psi: int, k: nat, d: nat, q: int)
    requires
        q >= 2,
        pow(psi, pow2(k)) % q == q - 1,
        0 < d < pow2(k),
    ensures
        geo(pow(psi * psi, d), pow2(k)) % q == 0,
    decreases k,
{
    lemma2_to64();
    if k == 0 {
        assert(false);
    } else {
        let h = pow2((k - 1) as nat);
        let n = pow2(k);
        lemma_pow2_unfold(k);
        assert(n == 2 * h);
        let r = pow(psi * psi, d);
        lemma_geo_double(r, h);
        lemma_square_is_pow2(psi);
        if d % 2 == 1 {
            lemma_pow_multiplies(psi * psi, d, h);
            lemma_pow_multiplies(psi, 2, d * h);
            assert(2 * (d * h) == n * d) by (nonlinear_arith)
                requires
                    n == 2 * h,
            ;
            lemma_pow_multiplies(psi, n, d);
            lemma_odd_power_of_minus_one(pow(psi, n), d, q);
            assert(pow(r, h) % q == q - 1);
            lemma_add_mod_noop(1, pow(r, h), q);
            lemma_small_mod(1, q as nat);
            lemma_mod_self_0(q);
            assert((1 + pow(r, h)) % q == 0);
            lemma_mul_mod_noop_left(1 + pow(r, h), geo(r, h), q);
            lemma_small_mod(0, q as nat);
        } else {
            let e = (d / 2) as nat;
            let p2 = psi * psi;
            assert(d == 2 * e);
            lemma_pow_multiplies(psi, 2, h);
            assert(2 * h == n);
            assert(pow(p2, h) % q == q - 1);
            lemma_geo_vanishes(p2, (k - 1) as nat, e, q);
            lemma_pow_multiplies(p2, 2, e);
            lemma_square_is_pow2(p2);
            assert(r == pow(p2 * p2, e));
            lemma_mul_mod_noop_right(1 + pow(r, h), geo(r, h), q);
            lemma_small_mod(0, q as nat);
        }
    }
}

proof fn lemma_cong_mul(a: int, b: int, c: int, d: int, q: int)
    requires
        q >= 2,
        a % q == b % q,
        c % q == d % q,
    ensures
        (a * c) % q == (b * d) % q,
{
    lemma_mul_mod_noop(a, c, q);
    lemma_mul_mod_noop(b, d, q);
}

proof fn lemma_cong_pow(a: int, b: int, e: nat, q: int)
    requires
        q >= 2,
        a % q == b % q,
    ensures
        pow(a, e) % q == pow(b, e) % q,
{
    lemma_pow_mod_noop(a, e, q);
    lemma_pow_mod_noop(b, e, q);
}

/// Two inverses of one value are congruent.
proof fn lemma_inverses_agree(a: int, b: int, w: int, q: int)
    requires
        q >= 2,
        (a * w) % q == 1,
        (b * w) % q == 1,
    ensures
        a % q == b % q,
{
    lemma_small_mod(1, q as nat);
    lemma_cong_mul(a, a, b * w, 1, q);
    lemma_cong_mul(b, b, a * w, 1, q);
    assert(a * (b * w) == b * (a * w)) by (nonlinear_arith);
    assert(a * 1 == a && b * 1 == b);
}

/// sum over i < n of psi^((2i+1) j) * psi_inv^((2i+1) k): n for j == k, 0 otherwise (mod q).
proof fn lemma_orthogonal(psi: int, psi_inv: int, kk: nat, j: nat, k: nat, q: int)
    requires
        q >= 2,
        pow(psi, pow2(kk)) % q == q - 1,
        (psi_inv * psi) % q == 1,
        j < pow2(kk),
        k < pow2(kk),
    ensures
        sum(|i: int| pow(psi, ((2 * i + 1) * j) as nat) * pow(psi_inv, ((2 * i + 1) * k) as nat), pow2(kk)) % q
            == (if j == k { pow2(kk) as int } else { 0 }) % q,
{
    let n = pow2(kk);
    let u = pow(psi, j) * pow(psi_inv, k);
    let term = |i: int| pow(psi, ((2 * i + 1) * j) as nat) * pow(psi_inv, ((2 * i + 1) * k) as nat);
    let g = |i: int| pow(u * u, i as nat);
    assert forall|i: int| 0 <= i < n implies #[trigger] term(i) == (|i: int| u * g(i))(i) by {
        let e = (2 * i + 1) as nat;
        assert(((2 * i + 1) * j) as nat == e * j && ((2 * i + 1) * k) as nat == e * k) by (nonlinear_arith)
            requires
                i >= 0,
                e == 2 * i + 1,
        ;
        lemma_pow_multiplies(psi, j, e);
        lemma_pow_multiplies(psi_inv, k, e);
        assert(j * e == e * j && k * e == e * k) by (nonlinear_arith);
        lemma_pow_distributes(pow(psi, j), pow(psi_inv, k), e);
        lemma_pow_adds(u, 1, 2 * (i as nat));
        lemma_pow1(u);
        lemma_pow_multiplies(u, 2, i as nat);
        lemma_square_is_pow2(u);
    }
    lemma_sum_ext(term, |i: int| u * g(i), n);
    lemma_sum_scale(g, u, n);
    assert(sum(g, n) == geo(u * u, n)) by {
        lemma_sum_ext(g, |i: int| pow(u * u, i as nat), n);
    }
    lemma_small_mod(1, q as nat);
    lemma_pow2_pos(kk);
    let w = (psi_inv * psi) % q;
    if j == k {
        lemma_pow_distributes(psi_inv, psi, k);
        lemma_cong_pow(psi_inv * psi, 1, k, q);
        lemma1_pow(k);
        assert(u == pow(psi_inv * psi, k)) by (nonlinear_arith)
            requires
                u == pow(psi, j) * pow(psi_inv, k),
                pow(psi_inv * psi, k) == pow(psi_inv, k) * pow(psi, k),
                j == k,
        ;
        assert(u % q == 1);
        lemma_cong_mul(u, 1, u, 1, q);
        let one = |i: int| 1int;
        assert forall|i: int| 0 <= i < n implies #[trigger] g(i) % q == one(i) % q by {
            lemma_cong_pow(u * u, 1, i as nat, q);
            lemma1_pow(i as nat);
        }
        lemma_sum_congruent(g, one, n, q);
        lemma_sum_const(n);
        lemma_cong_mul(u, 1, sum(g, n), n as int, q);
    } else {
        let p2 = psi * psi;
        let d: nat = if j > k { (j - k) as nat } else { (n + j - k) as nat };
        assert((u * u) % q == pow(p2, d) % q) by {
            lemma_square_is_pow2(psi);
            if j > k {
                let m = (j - k) as nat;
                lemma_pow_adds(psi, m, k);
                lemma_pow_distributes(psi, psi_inv, k);
                lemma_pow_distributes(psi_inv, psi, k);
                lemma_cong_pow(psi_inv * psi, 1, k, q);
                lemma1_pow(k);
                assert(psi * psi_inv == psi_inv * psi) by (nonlinear_arith);
                // u = psi^m * (psi psi_inv)^k, which is psi^m mod q
                assert(u == pow(psi, m) * pow(psi * psi_inv, k)) by (nonlinear_arith)
                    requires
                        u == pow(psi, j) * pow(psi_inv, k),
                        pow(psi, m + k) == pow(psi, m) * pow(psi, k),
                        m + k == j,
                        pow(psi * psi_inv, k) == pow(psi, k) * pow(psi_inv, k),
                ;
                lemma_cong_mul(pow(psi, m), pow(psi, m), pow(psi * psi_inv, k), 1, q);
                lemma_cong_mul(u, pow(psi, m), u, pow(psi, m), q);
                lemma_pow_distributes(psi, psi, m);
            } else {
                let m = (k - j) as nat;
                lemma_pow_adds(psi_inv, m, j);
                lemma_pow_distributes(psi, psi_inv, j);
                lemma_cong_pow(psi_inv * psi, 1, j, q);
                lemma1_pow(j);
                assert(psi * psi_inv == psi_inv * psi) by (nonlinear_arith);
                assert(u == pow(psi_inv, m) * pow(psi * psi_inv, j)) by (nonlinear_arith)
                    requires
                        u == pow(psi, j) * pow(psi_inv, k),
                        pow(psi_inv, m + j) == pow(psi_inv, m) * pow(psi_inv, j),
                        m + j == k,
                        pow(psi * psi_inv, j) == pow(psi, j) * pow(psi_inv, j),
                ;
                lemma_cong_mul(pow(psi_inv, m), pow(psi_inv, m), pow(psi * psi_inv, j), 1, q);
                lemma_cong_mul(u, pow(psi_inv, m), u, pow(psi_inv, m), q);
                lemma_pow_distributes(psi_inv, psi_inv, m);
                // (psi_inv^2)^m and (psi^2)^(n - m) are both inverses of (psi^2)^m
                let wm = pow(p2, m);
                lemma_pow_distributes(psi_inv * psi_inv, p2, m);
                assert((psi_inv * psi_inv) * p2 == (psi_inv * psi) * (psi_inv * psi)) by (nonlinear_arith)
                    requires
                        p2 == psi * psi,
                ;
                lemma_cong_mul(psi_inv * psi, 1, psi_inv * psi, 1, q);
                lemma_cong_pow((psi_inv * psi_inv) * p2, 1, m, q);
                lemma1_pow(m);
                lemma_pow_adds(p2, d, m);
                assert(d + m == n);
                lemma_pow_multiplies(psi, 2, n);
                lemma_pow_multiplies(psi, n, 2);
                assert(2 * n == n * 2) by (nonlinear_arith);
                lemma_square_is_pow2(pow(psi, n));
                lemma_small_mod((q - 1) as nat, q as nat);
                lemma_cong_mul(pow(psi, n), q - 1, pow(psi, n), q - 1, q);
                assert((q - 1) * (q - 1) == q * (q - 2) + 1) by (nonlinear_arith);
                lemma_mod_multiples_vanish(q - 2, 1, q);
                assert(pow(p2, n) % q == 1);
                lemma_inverses_agree(pow(psi_inv * psi_inv, m), pow(p2, d), wm, q);
            }
        }
        assert forall|i: int| 0 <= i < n implies #[trigger] g(i) % q == (|i: int| pow(pow(p2, d), i as nat))(i) % q by {
            lemma_cong_pow(u * u, pow(p2, d), i as nat, q);
        }
        lemma_sum_congruent(g, |i: int| pow(pow(p2, d), i as nat), n, q);
        lemma_geo_vanishes(psi, kk, d, q);
        lemma_cong_mul(u, u, sum(g, n), 0, q);
    }
}

proof fn lemma_sum_const(n: nat)
    ensures
        sum(|i: int| 1int, n) == n,
    decreases n,
{
    if n > 0 {
        lemma_sum_const((n - 1) as nat);
    }
}

/// The transform's coefficient `i`, before reduction: sum_j a[j] psi^((2i+1) j).
pub open spec fn ntt_exact(a: Seq<i32>, psi: int, n: nat, i: int) -> int {
    sum(|j: int| a[j] * pow(psi, ((2 * i + 1) * j) as nat), n)
}

/// Evaluating at a power reduced mod q, then reducing, is evaluating at the power itself.
proof fn lemma_eval_at_power(a: Seq<i32>, c: Seq<int>, root: int, s: nat, n: nat, q: int)
    requires
        q >= 2,
        a.len() == n,
        forall|t: int| 0 <= t < n ==> #[trigger] (a[t] as int) % q == c[t] % q,
    ensures
        eval_poly(a, pow(root, s) % q, n) % q == sum(
            |t: int| c[t] * pow(root, (s * t) as nat),
            n,
        ) % q,
{
    lemma_eval_is_sum(a, pow(root, s) % q, n);
    let f = |t: int| a[t] * pow(pow(root, s) % q, t as nat);
    let g = |t: int| c[t] * pow(root, (s * t) as nat);
    assert forall|t: int| 0 <= t < n implies #[trigger] f(t) % q == g(t) % q by {
        lemma_pow_mod_noop(pow(root, s), t as nat, q);
        lemma_pow_multiplies(root, s, t as nat);
        assert((s * t) as nat == s * (t as nat));
        lemma_mod_twice(pow(pow(root, s), t as nat), q);
        lemma_cong_mul(a[t] as int, c[t], pow(pow(root, s) % q, t as nat), pow(root, (s * t) as nat), q);
    }
    lemma_sum_ext(|t: int| a[t] * pow(pow(root, s) % q, t as nat), f, n);
    lemma_sum_congruent(f, g, n, q);
}

proof fn lemma_padded_same(a: Seq<i32>)
    ensures
        padded(a, a.len() as int) == a,
{
    assert(padded(a, a.len() as int) =~= a);
}

/// The facts about the ring's roots and inverses that the transforms rest on.
proof fn lemma_ring_facts(ring: NegacyclicRing)
    requires
        ring.wf(),
        ring.invertible(),
    ensures
        0 <= ring.psi() < ring.q(),
        pow(ring.psi(), ring.n() as nat) % ring.q() == ring.q() - 1,
        (ring.psi_inv() * ring.psi()) % ring.q() == 1,
        (ring.n_inv() * ring.n()) % ring.q() == 1,
        1 <= ring.psi_inv() < ring.q(),
        1 <= ring.n_inv() < ring.q(),
        ring.n() == pow2(ring.exponent as nat),
        ring.n() >= 1,
{
    let n = ring.n();
    let q = ring.q();
    let psi = ring.psi();
    assert(is_least_root_over(psi, n, q));
    assert(is_least_inverse(ring.psi_inv(), psi, q));
    assert(is_least_inverse(ring.n_inv(), n, q));
    lemma_pow2_pos(ring.exponent as nat);
}

/// Coefficient k of the inverse transform of the transform of `a` is a[k].
proof fn lemma_intt_ntt_coeff(ring: NegacyclicRing, a: Seq<i32>, k: int)
    requires
        ring.wf(),
        ring.invertible(),
        reduced(a, ring.q()),
        a.len() == ring.n(),
        0 <= k < ring.n(),
    ensures
        ring.intt_of(ring.ntt_spec(a), k) == a[k],
{
    lemma_ring_facts(ring);
    let n = ring.n() as nat;
    let q = ring.q();
    let psi = ring.psi();
    let pi = ring.psi_inv();
    let ni = ring.n_inv();
    let x = ring.ntt_spec(a);
    lemma_padded_same(a);
    lemma_padded_same(x);
    let a_int = Seq::new(n, |t: int| a[t] as int);
    let xp = Seq::new(n, |i: int| ntt_exact(a, psi, n, i));
    // each transformed coefficient is congruent to its unreduced sum
    assert forall|i: int| 0 <= i < n implies #[trigger] (x[i] as int) % q == xp[i] % q by {
        let s = (2 * i + 1) as nat;
        lemma_eval_at_power(a, a_int, psi, s, n, q);
        lemma_sum_ext(
            |t: int| a_int[t] * pow(psi, (s * t) as nat),
            |j: int| a[j] * pow(psi, ((2 * i + 1) * j) as nat),
            n,
        );
        let e = eval_poly(a, pow(psi, s) % q, n);
        lemma_mod_bound(e, q);
        lemma_mod_twice(e, q);
        assert(x[i] as int == e % q);
    }
    // the inverse transform, up to reduction
    let kn = k as nat;
    let e2 = eval_poly(x, pow(pi, 2 * kn) % q, n);
    lemma_eval_at_power(x, xp, pi, 2 * kn, n, q);
    let s1 = sum(|t: int| xp[t] * pow(pi, ((2 * kn) * t) as nat), n);
    let pk = pow(pi, kn);
    let r = ring.intt_of(x, k);
    assert(r == (((ni * (pk % q)) % q) * (e2 % q)) % q);
    lemma_mod_twice(pk, q);
    lemma_cong_mul(ni, ni, pk % q, pk, q);
    lemma_mod_twice(ni * (pk % q), q);
    lemma_sum_ext(
        |t: int| xp[t] * pow(pi, ((2 * kn) * t) as nat),
        |t: int| xp[t] * pow(pi, ((2 * kn) * t) as nat),
        n,
    );
    lemma_mod_twice(e2, q);
    assert((e2 % q) % q == s1 % q);
    lemma_cong_mul((ni * (pk % q)) % q, ni * pk, e2 % q, s1, q);
    lemma_mod_twice(((ni * (pk % q)) % q) * (e2 % q), q);
    assert(r % q == ((ni * pk) * s1) % q);
    // pk * s1 as a double sum
    let f1 = |t: int| xp[t] * pow(pi, ((2 * kn) * t) as nat);
    lemma_sum_scale(f1, pk, n);
    let big_f = |t: int, j: int| a[j] * (pow(psi, ((2 * t + 1) * j) as nat) * pow(pi, ((2 * t + 1) * kn) as nat));
    let lhs_f = |t: int| pk * f1(t);
    let rhs_f = |t: int| sum(|j: int| big_f(t, j), n);
    assert forall|t: int| 0 <= t < n implies #[trigger] lhs_f(t) == rhs_f(t) by {
        let c = pow(pi, ((2 * t + 1) * kn) as nat);
        lemma_pow_adds(pi, kn, ((2 * kn) * t) as nat);
        assert(kn + ((2 * kn) * t) as nat == ((2 * t + 1) * kn) as nat) by (nonlinear_arith)
            requires
                t >= 0,
        ;
        let g = |j: int| a[j] * pow(psi, ((2 * t + 1) * j) as nat);
        lemma_sum_scale(g, c, n);
        let cg = |j: int| c * g(j);
        let bf = |j: int| big_f(t, j);
        assert forall|j: int| 0 <= j < n implies #[trigger] cg(j) == bf(j) by {
            let pp = pow(psi, ((2 * t + 1) * j) as nat);
            assert(c * (a[j] * pp) == a[j] * (pp * c)) by (nonlinear_arith);
        }
        lemma_sum_ext(cg, bf, n);
        lemma_sum_ext(|j: int| c * g(j), cg, n);
        lemma_sum_ext(bf, |j: int| big_f(t, j), n);
        assert(xp[t] == sum(g, n));
        assert(pk * (xp[t] * pow(pi, ((2 * kn) * t) as nat)) == c * xp[t]) by (nonlinear_arith)
            requires
                c == pk * pow(pi, ((2 * kn) * t) as nat),
        ;
    }
    lemma_sum_ext(lhs_f, rhs_f, n);
    lemma_sum_ext(|t: int| pk * f1(t), lhs_f, n);
    lemma_sum_ext(rhs_f, |i: int| sum(|j: int| big_f(i, j), n), n);
    lemma_sum_swap(big_f, n, n);
    // the inner sums over t pick out j == k
    let tj = |j: int| sum(|t: int| pow(psi, ((2 * t + 1) * j) as nat) * pow(pi, ((2 * t + 1) * kn) as nat), n);
    let gj = |j: int| sum(|t: int| big_f(t, j), n);
    assert forall|j: int| 0 <= j < n implies #[trigger] gj(j) == a[j] * tj(j) by {
        let h = |t: int| pow(psi, ((2 * t + 1) * j) as nat) * pow(pi, ((2 * t + 1) * kn) as nat);
        lemma_sum_scale(h, a[j] as int, n);
        lemma_sum_ext(|t: int| big_f(t, j), |t: int| a[j] * h(t), n);
    }
    assert forall|j: int| 0 <= j < n && j != k implies #[trigger] gj(j) % q == 0 by {
        lemma_orthogonal(psi, pi, ring.exponent as nat, j as nat, kn, q);
        lemma_sum_ext(
            |i: int| pow(psi, ((2 * i + 1) * (j as nat)) as nat) * pow(pi, ((2 * i + 1) * kn) as nat),
            |t: int| pow(psi, ((2 * t + 1) * j) as nat) * pow(pi, ((2 * t + 1) * kn) as nat),
            n,
        );
        lemma_small_mod(0, q as nat);
        lemma_cong_mul(a[j] as int, a[j] as int, tj(j), 0, q);
    }
    lemma_sum_single(gj, n, k, q);
    lemma_orthogonal(psi, pi, ring.exponent as nat, kn, kn, q);
    lemma_sum_ext(
        |i: int| pow(psi, ((2 * i + 1) * kn) as nat) * pow(pi, ((2 * i + 1) * kn) as nat),
        |t: int| pow(psi, ((2 * t + 1) * k) as nat) * pow(pi, ((2 * t + 1) * kn) as nat),
        n,
    );
    lemma_cong_mul(a[k] as int, a[k] as int, tj(k), n as int, q);
    let s2 = pk * s1;
    assert(s2 == sum(gj, n));
    assert(s2 % q == (a[k] * n) % q);
    assert((ni * pk) * s1 == ni * s2) by (nonlinear_arith)
        requires
            s2 == pk * s1,
    ;
    lemma_cong_mul(ni, ni, s2, a[k] * n, q);
    assert(ni * (a[k] * n) == a[k] * (ni * n)) by (nonlinear_arith);
    lemma_small_mod(1, q as nat);
    lemma_cong_mul(a[k] as int, a[k] as int, ni * n, 1, q);
    lemma_small_mod(a[k] as nat, q as nat);
    lemma_mod_bound(r, q);
}

/// The inverse transform undoes the transform: for a ring whose transforms are defined,
/// any polynomial of at most n reduced coefficients comes back, zero-extended to n.
pub proof fn lemma_ntt_round_trip(ring: NegacyclicRing, a: Seq<i32>)
    requires
        ring.wf(),
        ring.invertible(),
        reduced(a, ring.q()),
        a.len() <= ring.n(),
    ensures
        ring.intt_spec(ring.ntt_spec(a)) == padded(a, ring.n()),
{
    let n = ring.n();
    let pa = padded(a, n);
    crate::ring::lemma_padded_reduced(a, n, ring.q());
    lemma_padded_same(pa);
    assert(ring.ntt_spec(a) =~= ring.ntt_spec(pa));
    assert forall|k: int| 0 <= k < n implies #[trigger] ring.intt_spec(ring.ntt_spec(pa))[k] == pa[k] by {
        lemma_intt_ntt_coeff(ring, pa, k);
    }
    assert(ring.intt_spec(ring.ntt_spec(pa)) =~= pa);
}

/// Term s of coefficient k of the negacyclic product: a[s] b[k - s], or -a[s] b[n + k - s]
/// where the index wraps past X^n = -1.
pub open spec fn nega_term(a: Seq<int>, b: Seq<int>, n: int, k: int, s: int) -> int {
    if s <= k {
        a[s] * b[k - s]
    } else {
        -(a[s] * b[n + k - s])
    }
}

/// Coefficient k of a * b in Z[X]/(X^n + 1), unreduced.
pub open spec fn nega_exact(a: Seq<int>, b: Seq<int>, n: nat, k: int) -> int {
    sum(|s: int| nega_term(a, b, n as int, k, s), n)
}

/// The negacyclic product a * b mod (X^n + 1, q) of two polynomials of n coefficients.
pub open spec fn negacyclic_mul(a: Seq<i32>, b: Seq<i32>, n: nat, q: int) -> Seq<i32> {
    Seq::new(
        n,
        |k: int|
            (nega_exact(
                Seq::new(n, |t: int| a[t] as int),
                Seq::new(n, |t: int| b[t] as int),
                n,
                k,
            ) % q) as i32,
    )
}

/// The pointwise product x[i] y[i] mod q.
pub open spec fn pointwise_mul(x: Seq<i32>, y: Seq<i32>, q: int) -> Seq<i32> {
    Seq::new(x.len(), |i: int| ((x[i] * y[i]) % q) as i32)
}

proof fn lemma_sum_split(f: spec_fn(int) -> int, a: nat, b: nat)
    ensures
        sum(f, a + b) == sum(f, a) + sum(|k: int| f(a + k), b),
    decreases b,
{
    if b > 0 {
        lemma_sum_split(f, a, (b - 1) as nat);
    }
}

/// Summing h over indices rotated by r is summing h.
proof fn lemma_sum_rotate(h: spec_fn(int) -> int, n: nat, r: nat)
    requires
        r < n,
    ensures
        sum(|k: int| h((k + r) % (n as int)), n) == sum(h, n),
{
    let f = |k: int| h((k + r) % (n as int));
    let m = (n - r) as nat;
    lemma_sum_split(f, m, r);
    lemma_sum_split(h, r, m);
    let hr = |k: int| h(r + k);
    let fm = |k: int| f(m + k);
    assert forall|k: int| 0 <= k < m implies #[trigger] f(k) == hr(k) by {
        lemma_small_mod((k + r) as nat, n);
    }
    lemma_sum_ext(f, hr, m);
    lemma_sum_ext(hr, |k: int| h(r + k), m);
    assert forall|k: int| 0 <= k < r implies #[trigger] fm(k) == h(k) by {
        lemma_fundamental_div_mod_converse(m + k + r, n as int, 1, k);
    }
    lemma_sum_ext(fm, h, r);
    lemma_sum_ext(|k: int| f(m + k), fm, r);
    lemma_sum_ext(|k: int| h(r + k), |k: int| h(r + k), m);
    assert(m + r == n && r + m == n);
}

/// (sum_s a_s w^s)(sum_t b_t w^t) is sum_k c_k w^k for c the negacyclic product, when
/// w^n = -1 (mod q).
proof fn lemma_convolution(a: Seq<int>, b: Seq<int>, w: int, n: nat, q: int)
    requires
        q >= 2,
        n >= 1,
        a.len() == n,
        b.len() == n,
        pow(w, n) % q == q - 1,
    ensures
        (sum(|s: int| a[s] * pow(w, s as nat), n) * sum(|t: int| b[t] * pow(w, t as nat), n)) % q
            == sum(|k: int| nega_exact(a, b, n, k) * pow(w, k as nat), n) % q,
{
    let sb = sum(|t: int| b[t] * pow(w, t as nat), n);
    let fa = |s: int| a[s] * pow(w, s as nat);
    // left side: sum_s a_s * sum_t b_t w^(s+t)
    lemma_sum_scale(fa, sb, n);
    assert(sum(fa, n) * sb == sb * sum(fa, n)) by (nonlinear_arith);
    let inner_l = |s: int| sum(|t: int| b[t] * pow(w, (s + t) as nat), n);
    let lhs_terms = |s: int| a[s] * inner_l(s);
    let fb = |t: int| b[t] * pow(w, t as nat);
    lemma_sum_ext(fb, |t: int| b[t] * pow(w, t as nat), n);
    assert forall|s: int| 0 <= s < n implies #[trigger] (sb * fa(s)) == lhs_terms(s) by {
        let c = pow(w, s as nat);
        let shifted = |t: int| b[t] * pow(w, (s + t) as nat);
        assert forall|t: int| 0 <= t < n implies #[trigger] shifted(t) == c * fb(t) by {
            lemma_pow_adds(w, s as nat, t as nat);
            assert(c * (b[t] * pow(w, t as nat)) == b[t] * (c * pow(w, t as nat))) by (nonlinear_arith);
        }
        lemma_sum_scale_ext(fb, shifted, c, n);
        lemma_sum_ext(shifted, |t: int| b[t] * pow(w, (s + t) as nat), n);
        assert(sb * (a[s] * c) == a[s] * (c * sb)) by (nonlinear_arith);
    }
    lemma_sum_ext(|s: int| sb * fa(s), lhs_terms, n);
    // right side: sum_s a_s * sum_k g_s(k) after swapping
    let big = |k: int, s: int| nega_term(a, b, n as int, k, s) * pow(w, k as nat);
    let col = |k: int| sum(|s: int| big(k, s), n);
    let lhs_k = |k: int| nega_exact(a, b, n, k) * pow(w, k as nat);
    assert forall|k: int| 0 <= k < n implies #[trigger] lhs_k(k) == col(k) by {
        let c = pow(w, k as nat);
        let nt = |s: int| nega_term(a, b, n as int, k, s);
        let bk = |s: int| big(k, s);
        assert forall|s: int| 0 <= s < n implies #[trigger] bk(s) == c * nt(s) by {
            assert(nega_term(a, b, n as int, k, s) * c == c * nega_term(a, b, n as int, k, s)) by (nonlinear_arith);
        }
        lemma_sum_scale_ext(nt, bk, c, n);
        lemma_sum_ext(nt, |s: int| nega_term(a, b, n as int, k, s), n);
        lemma_sum_ext(bk, |s: int| big(k, s), n);
        assert(nega_exact(a, b, n, k) * c == c * nega_exact(a, b, n, k)) by (nonlinear_arith);
    }
    lemma_sum_ext(lhs_k, col, n);
    lemma_sum_ext(|k: int| nega_exact(a, b, n, k) * pow(w, k as nat), lhs_k, n);
    lemma_sum_ext(col, |i: int| sum(|j: int| big(i, j), n), n);
    lemma_sum_swap(big, n, n);
    // for each s, sum_k big(k, s) is congruent to a_s * inner_l(s)
    let rhs_terms = |s: int| sum(|k: int| big(k, s), n);
    assert forall|s: int| 0 <= s < n implies #[trigger] rhs_terms(s) % q == lhs_terms(s) % q by {
        let h = |t: int| b[t] * pow(w, (s + t) as nat);
        let g = |k: int| if s <= k { b[k - s] * pow(w, k as nat) } else { -(b[n + k - s] * pow(w, k as nat)) };
        let r = ((n - s) % (n as int)) as nat;
        lemma_mod_bound(n - s, n as int);
        assert forall|k: int| 0 <= k < n implies #[trigger] g(k) % q == h((k + r) % (n as int)) % q by {
            if s == 0 {
                lemma_mod_self_0(n as int);
                lemma_small_mod(k as nat, n);
            } else {
                lemma_small_mod((n - s) as nat, n);
            }
            if s <= k {
                lemma_small_mod((k - s) as nat, n);
                assert((k + r) % (n as int) == k - s) by {
                    if s == 0 {
                    } else {
                        lemma_fundamental_div_mod_converse(k + r, n as int, 1, k - s);
                    }
                }
                assert(s + (k - s) == k);
            } else {
                assert(s > 0);
                lemma_small_mod((n + k - s) as nat, n);
                assert((k + r) % (n as int) == n + k - s);
                let t = n + k - s;
                lemma_pow_adds(w, n, k as nat);
                assert((s + t) as nat == n + k as nat);
                let bt = b[t];
                let pk = pow(w, k as nat);
                lemma_small_mod((q - 1) as nat, q as nat);
                lemma_cong_mul(pow(w, n), q - 1, bt * pk, bt * pk, q);
                assert(bt * (pow(w, n) * pk) == pow(w, n) * (bt * pk)) by (nonlinear_arith);
                assert((q - 1) * (bt * pk) == q * (bt * pk) + (-(bt * pk))) by (nonlinear_arith);
                lemma_mod_multiples_vanish(bt * pk, -(bt * pk), q);
            }
        }
        lemma_sum_congruent(g, |k: int| h((k + r) % (n as int)), n, q);
        lemma_sum_rotate(h, n, r);
        lemma_sum_scale(g, a[s], n);
        let ag = |k: int| a[s] * g(k);
        assert forall|k: int| 0 <= k < n implies #[trigger] big(k, s) == ag(k) by {
            if s <= k {
                assert(a[s] * b[k - s] * pow(w, k as nat) == a[s] * (b[k - s] * pow(w, k as nat))) by (nonlinear_arith);
            } else {
                assert(-(a[s] * b[n + k - s]) * pow(w, k as nat) == a[s] * (-(b[n + k - s] * pow(w, k as nat)))) by (nonlinear_arith);
            }
        }
        lemma_sum_ext(|k: int| big(k, s), ag, n);
        lemma_sum_ext(ag, |k: int| a[s] * g(k), n);
        lemma_sum_ext(h, |t: int| b[t] * pow(w, (s + t) as nat), n);
        lemma_cong_mul(a[s], a[s], sum(g, n), sum(h, n), q);
    }
    lemma_sum_congruent(rhs_terms, lhs_terms, n, q);
    lemma_sum_ext(|j: int| sum(|i: int| big(i, j), n), rhs_terms, n);
}

/// Coefficient i of the transform of `a` is sum_s a[s] w^s for w = psi^(2i+1), mod q.
proof fn lemma_ntt_coeff_sum(ring: NegacyclicRing, a: Seq<i32>, i: int)
    requires
        ring.wf(),
        ring.invertible(),
        reduced(a, ring.q()),
        a.len() == ring.n(),
        0 <= i < ring.n(),
    ensures
        (ring.ntt_spec(a)[i] as int) % ring.q() == sum(
            |s: int| (a[s] as int) * pow(pow(ring.psi(), (2 * i + 1) as nat), s as nat),
            ring.n() as nat,
        ) % ring.q(),
{
    lemma_ring_facts(ring);
    let n = ring.n() as nat;
    let q = ring.q();
    let psi = ring.psi();
    let e = (2 * i + 1) as nat;
    lemma_padded_same(a);
    let a_int = Seq::new(n, |t: int| a[t] as int);
    lemma_eval_at_power(a, a_int, psi, e, n, q);
    let f = |t: int| a_int[t] * pow(psi, (e * t) as nat);
    let g = |s: int| (a[s] as int) * pow(pow(psi, e), s as nat);
    assert forall|t: int| 0 <= t < n implies #[trigger] f(t) == g(t) by {
        lemma_pow_multiplies(psi, e, t as nat);
    }
    lemma_sum_ext(f, g, n);
    lemma_sum_ext(|t: int| a_int[t] * pow(psi, (e * t) as nat), f, n);
    lemma_sum_ext(g, |s: int| (a[s] as int) * pow(pow(psi, e), s as nat), n);
    let ev = eval_poly(a, pow(psi, e) % q, n);
    lemma_mod_bound(ev, q);
    lemma_mod_twice(ev, q);
}

/// Multiplying pointwise in transform space is multiplying in the ring: the inverse
/// transform of the pointwise product of two transforms is the negacyclic product
/// a * b mod (X^n + 1, q) of the two polynomials, zero-extended to n.
pub proof fn lemma_ntt_multiplication(ring: NegacyclicRing, a: Seq<i32>, b: Seq<i32>)
    requires
        ring.wf(),
        ring.invertible(),
        reduced(a, ring.q()),
        reduced(b, ring.q()),
        a.len() <= ring.n(),
        b.len() <= ring.n(),
    ensures
        ring.intt_spec(pointwise_mul(ring.ntt_spec(a), ring.ntt_spec(b), ring.q()))
            == negacyclic_mul(padded(a, ring.n()), padded(b, ring.n()), ring.n() as nat, ring.q()),
{
    lemma_ring_facts(ring);
    let n = ring.n() as nat;
    let q = ring.q();
    let psi = ring.psi();
    let pa = padded(a, n as int);
    let pb = padded(b, n as int);
    crate::ring::lemma_padded_reduced(a, n as int, q);
    crate::ring::lemma_padded_reduced(b, n as int, q);
    lemma_padded_same(pa);
    lemma_padded_same(pb);
    assert(ring.ntt_spec(a) =~= ring.ntt_spec(pa));
    assert(ring.ntt_spec(b) =~= ring.ntt_spec(pb));
    let a_int = Seq::new(n, |t: int| pa[t] as int);
    let b_int = Seq::new(n, |t: int| pb[t] as int);
    let c = negacyclic_mul(pa, pb, n, q);
    assert forall|k: int| 0 <= k < n implies #[trigger] c[k] as int == nega_exact(a_int, b_int, n, k) % q by {
        lemma_mod_bound(nega_exact(a_int, b_int, n, k), q);
    }
    assert(reduced(c, q));
    let c_exact = Seq::new(n, |k: int| nega_exact(a_int, b_int, n, k));
    let x = ring.ntt_spec(pa);
    let y = ring.ntt_spec(pb);
    let z = ring.ntt_spec(c);
    let prod = pointwise_mul(x, y, q);
    assert forall|i: int| 0 <= i < n implies #[trigger] prod[i] == z[i] by {
        let e = (2 * i + 1) as nat;
        let w = pow(psi, e);
        lemma_ntt_coeff_sum(ring, pa, i);
        lemma_ntt_coeff_sum(ring, pb, i);
        let sa = sum(|s: int| (pa[s] as int) * pow(w, s as nat), n);
        let sb = sum(|s: int| (pb[s] as int) * pow(w, s as nat), n);
        lemma_sum_ext(|s: int| (pa[s] as int) * pow(w, s as nat), |s: int| a_int[s] * pow(w, s as nat), n);
        lemma_sum_ext(|s: int| (pb[s] as int) * pow(w, s as nat), |t: int| b_int[t] * pow(w, t as nat), n);
        // w^n = (psi^n)^(2i+1) = -1
        lemma_pow_multiplies(psi, e, n);
        lemma_pow_multiplies(psi, n, e);
        assert(e * n == n * e) by (nonlinear_arith);
        lemma_odd_power_of_minus_one(pow(psi, n), e, q);
        lemma_convolution(a_int, b_int, w, n, q);
        lemma_cong_mul(x[i] as int, sa, y[i] as int, sb, q);
        // the transform of c
        assert forall|k: int| 0 <= k < n implies #[trigger] (c[k] as int) % q == c_exact[k] % q by {
            lemma_mod_twice(c_exact[k], q);
        }
        lemma_padded_same(c);
        lemma_eval_at_power(c, c_exact, psi, e, n, q);
        let f = |k: int| c_exact[k] * pow(psi, (e * k) as nat);
        let g = |k: int| nega_exact(a_int, b_int, n, k) * pow(w, k as nat);
        assert forall|k: int| 0 <= k < n implies #[trigger] f(k) == g(k) by {
            lemma_pow_multiplies(psi, e, k as nat);
        }
        lemma_sum_ext(|k: int| c_exact[k] * pow(psi, (e * k) as nat), f, n);
        lemma_sum_ext(f, g, n);
        lemma_sum_ext(g, |k: int| nega_exact(a_int, b_int, n, k) * pow(w, k as nat), n);
        let ev = eval_poly(c, pow(psi, e) % q, n);
        lemma_mod_bound(ev, q);
        lemma_mod_twice(ev, q);
        lemma_mod_bound((x[i] as int) * (y[i] as int), q);
        lemma_small_mod(((x[i] as int) * (y[i] as int)) as nat % (q as nat), q as nat);
    }
    assert(prod =~= z);
    lemma_ntt_round_trip(ring, c);
    lemma_padded_same(c);
}

} // verus!
