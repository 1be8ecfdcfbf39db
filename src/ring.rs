use vstd::arithmetic::div_mod::*;
use vstd::arithmetic::power::*;
use vstd::arithmetic::power2::*;
use vstd::prelude::*;

verus! {

/// The largest exponent handled: n = 2^exponent stays well inside `i32`.
pub const MAX_EXPONENT: u32 = 16;

/// The largest modulus handled: sums of 2^16 products of two residues stay inside `i64`.
pub const MAX_MODULUS: i32 = 65536;

/// The negacyclic polynomial ring Z_q[X]/(X^n + 1) with n = 2^exponent.
#[derive(Debug, Clone, Copy, PartialEq, Eq, Structural)]
pub struct NegacyclicRing {
    pub modulus: i32,
    pub exponent: u32,
}

/// Low `k` bits of `x`, taken least significant first, written most significant first.
pub open spec fn bit_rev(x: int, k: nat) -> int
    decreases k,
{
    if k == 0 {
        0
    } else {
        (x % 2) * pow2((k - 1) as nat) + bit_rev(x / 2, (k - 1) as nat)
    }
}

/// `z` is a primitive `n`-th root of unity modulo `q`.
pub open spec fn is_primitive_root(z: int, n: int, q: int) -> bool {
    &&& n >= 1
    &&& pow(z, n as nat) % q == 1
    &&& forall|k: int| 0 < k < n ==> #[trigger] pow(z, k as nat) % q != 1
}

/// `z` is the least primitive `n`-th root of unity in [0, q).
pub open spec fn is_least_primitive_root(z: int, n: int, q: int) -> bool {
    &&& 0 <= z < q
    &&& is_primitive_root(z, n, q)
    &&& forall|r: int| 0 <= r < z ==> !#[trigger] is_primitive_root(r, n, q)
}

/// `psi` squares to `z` and its `n`-th power is -1 modulo `q`.
pub open spec fn is_root_over(psi: int, z: int, n: int, q: int) -> bool {
    &&& pow(psi, 2) % q == z
    &&& pow(psi, n as nat) % q == q - 1
}

/// `psi` is the least element of [0, q) over the least primitive `n`-th root.
pub open spec fn is_least_root_over(psi: int, n: int, q: int) -> bool {
    exists|z: int|
        #![trigger is_least_primitive_root(z, n, q)]
        is_least_primitive_root(z, n, q) && 0 <= psi < q && is_root_over(psi, z, n, q)
            && forall|r: int| 0 <= r < psi ==> !#[trigger] is_root_over(r, z, n, q)
}

/// `y` is a multiplicative inverse of `x` modulo `q`.
pub open spec fn is_inverse(y: int, x: int, q: int) -> bool {
    (y * x) % q == 1
}

/// Failures of the ring layer and of the protocol built on it.
#[derive(Debug, Clone, Copy, PartialEq, Eq, Structural)]
pub enum RlweError {
    /// The ring has no primitive 2n-th root of unity, or a needed inverse is missing.
    InvalidRing,
    /// A polynomial has more coefficients than the ring.
    TooLong,
    /// Wire bytes that do not have the expected layout.
    MalformedWire,
    /// Fewer random words than the operation draws.
    ShortRandomness,
}

/// Some element of [0, q) is a 2n-th root over the least primitive n-th root.
pub open spec fn has_twiddle_root(n: int, q: int) -> bool {
    exists|psi: int| is_least_root_over(psi, n, q)
}

/// The 2n-th root the transforms run on, where there is one.
pub open spec fn twiddle_root(n: int, q: int) -> int {
    choose|psi: int| is_least_root_over(psi, n, q)
}

/// `y` is the least inverse of `x` in [1, q).
pub open spec fn is_least_inverse(y: int, x: int, q: int) -> bool {
    &&& 1 <= y < q
    &&& is_inverse(y, x, q)
    &&& forall|j: int| 1 <= j < y ==> !#[trigger] is_inverse(j, x, q)
}

/// `x` has an inverse modulo `q` in [1, q).
pub open spec fn has_inverse(x: int, q: int) -> bool {
    exists|y: int| is_least_inverse(y, x, q)
}

/// The inverse of `x` modulo `q` that `inverse` finds, where there is one.
pub open spec fn least_inverse(x: int, q: int) -> int {
    choose|y: int| is_least_inverse(y, x, q)
}

/// a[0] + a[1] w + ... + a[j-1] w^(j-1).
pub open spec fn eval_poly(a: Seq<i32>, w: int, j: nat) -> int
    decreases j,
{
    if j == 0 {
        0
    } else {
        eval_poly(a, w, (j - 1) as nat) + a[j - 1] * pow(w, (j - 1) as nat)
    }
}

/// Coefficient `i` of the transform of `a` with `root`: `a` evaluated at root^(2i+1), mod q.
pub open spec fn ntt_coeff(a: Seq<i32>, root: int, q: int, i: int) -> int {
    eval_poly(a, pow(root, (2 * i + 1) as nat) % q, a.len()) % q
}

/// Coefficient `k` of the inverse transform: n_inv * root_inv^k * sum_i a[i] root_inv^(2ik),
/// mod q. With root_inv = psi^-1 and n_inv = n^-1 this undoes the forward transform.
pub open spec fn intt_coeff(a: Seq<i32>, root_inv: int, n_inv: int, q: int, k: int) -> int {
    (((n_inv * (pow(root_inv, k as nat) % q)) % q) * (eval_poly(
        a,
        pow(root_inv, (2 * k) as nat) % q,
        a.len(),
    ) % q)) % q
}

/// `a` zero-extended to length `n`.
pub open spec fn padded(a: Seq<i32>, n: int) -> Seq<i32> {
    a + Seq::new((n - a.len()) as nat, |i: int| 0i32)
}

/// All coefficients lie in [0, q).
pub open spec fn reduced(a: Seq<i32>, q: int) -> bool {
    forall|i: int| 0 <= i < a.len() ==> 0 <= #[trigger] a[i] < q
}

proof fn lemma_least_root_unique(n: int, q: int, psi: int)
    requires
        is_least_root_over(psi, n, q),
    ensures
        has_twiddle_root(n, q),
        twiddle_root(n, q) == psi,
{
    let other = twiddle_root(n, q);
    assert(is_least_root_over(other, n, q));
    let z1 = choose|z: int| #[trigger]
        is_least_primitive_root(z, n, q) && 0 <= psi < q && is_root_over(psi, z, n, q) && forall|
            r: int,
        | 0 <= r < psi ==> !#[trigger] is_root_over(r, z, n, q);
    let z2 = choose|z: int| #[trigger]
        is_least_primitive_root(z, n, q) && 0 <= other < q && is_root_over(other, z, n, q)
            && forall|r: int| 0 <= r < other ==> !#[trigger] is_root_over(r, z, n, q);
    if z1 < z2 {
        assert(!is_primitive_root(z1, n, q));
    }
    if z2 < z1 {
        assert(!is_primitive_root(z2, n, q));
    }
    assert(z1 == z2);
    if psi < other {
        assert(!is_root_over(psi, z2, n, q));
    }
    if other < psi {
        assert(!is_root_over(other, z1, n, q));
    }
}

proof fn lemma_least_inverse_unique(x: int, q: int, y: int)
    requires
        is_least_inverse(y, x, q),
    ensures
        has_inverse(x, q),
        least_inverse(x, q) == y,
{
    let other = least_inverse(x, q);
    if y < other {
        assert(!is_inverse(y, x, q));
    }
    if other < y {
        assert(!is_inverse(other, x, q));
    }
}

proof fn lemma_square_of_minus_one(p: int, n: nat, q: int)
    requires
        q >= 2,
        pow(p, n) % q == q - 1,
    ensures
        pow(p, 2 * n) % q == 1,
{
    lemma_pow_multiplies(p, n, 2);
    lemma_square_is_pow2(pow(p, n));
    lemma_pow_mod_noop(pow(p, n), 2, q);
    lemma_square_is_pow2(q - 1);
    assert((q - 1) * (q - 1) == q * (q - 2) + 1) by (nonlinear_arith);
    lemma_mod_multiples_vanish(q - 2, 1, q);
    lemma_small_mod(1, q as nat);
    assert(n * 2 == 2 * n) by (nonlinear_arith);
}

/// sum over t < j of a[t] * tab[(s t) mod m], without reduction.
pub open spec fn table_dot(a: Seq<i32>, tab: Seq<i64>, s: int, m: int, j: nat) -> int
    decreases j,
{
    if j == 0 {
        0
    } else {
        table_dot(a, tab, s, m, (j - 1) as nat) + a[j - 1] * tab[(s * (j - 1)) % m]
    }
}

/// `tab` lists root^e mod q for e < m.
pub open spec fn is_power_table(tab: Seq<i64>, root: int, q: int, m: int) -> bool {
    &&& tab.len() == m
    &&& forall|e: int| 0 <= e < m ==> #[trigger] tab[e] == pow(root, e as nat) % q
}

proof fn lemma_pow_periodic(root: int, k: nat, m: nat, q: int)
    requires
        q >= 2,
        m > 0,
        pow(root, m) % q == 1,
    ensures
        pow(root, k) % q == pow(root, k % m) % q,
{
    let d = k / m;
    let r = k % m;
    lemma_fundamental_div_mod(k as int, m as int);
    assert(k == m * d + r);
    lemma_pow_multiplies(root, m, d);
    lemma_pow_adds(root, m * d, r);
    lemma_pow_mod_noop(pow(root, m), d, q);
    lemma1_pow(d);
    lemma_small_mod(1, q as nat);
    let big = pow(pow(root, m), d);
    assert(big % q == 1);
    lemma_mul_mod_noop_left(big, pow(root, r), q);
}

proof fn lemma_table_dot(a: Seq<i32>, tab: Seq<i64>, root: int, s: nat, m: nat, q: int, j: nat)
    requires
        q >= 2,
        m > 0,
        j <= a.len(),
        pow(root, m) % q == 1,
        is_power_table(tab, root, q, m as int),
    ensures
        table_dot(a, tab, s as int, m as int, j) % q == eval_poly(a, pow(root, s) % q, j) % q,
    decreases j,
{
    if j > 0 {
        let t = (j - 1) as nat;
        lemma_table_dot(a, tab, root, s, m, q, t);
        let x = pow(root, s) % q;
        let k = s * t;
        assert(k >= 0) by (nonlinear_arith)
            requires
                s >= 0,
                t >= 0,
        ;
        lemma_pow_periodic(root, k as nat, m, q);
        lemma_pow_multiplies(root, s, t);
        lemma_pow_mod_noop(pow(root, s), t, q);
        lemma_mod_pos_bound(k as int, m as int);
        assert(k as int == s * t);
        let e = (k as int) % (m as int);
        assert(tab[e] == pow(root, e as nat) % q);
        assert((tab[e] as int) % q == pow(x, t) % q) by {
            lemma_mod_twice(pow(root, e as nat), q);
        }
        let d0 = table_dot(a, tab, s as int, m as int, t);
        let e0 = eval_poly(a, x, t);
        let ai = a[t as int] as int;
        lemma_mul_mod_noop_right(ai, tab[e] as int, q);
        lemma_mul_mod_noop_right(ai, pow(x, t), q);
        lemma_add_mod_noop(d0, ai * tab[e], q);
        lemma_add_mod_noop(e0, ai * pow(x, t), q);
    }
}

proof fn lemma_inverse_root_period(psi: int, psi_inv: int, m: nat, q: int)
    requires
        q >= 2,
        pow(psi, m) % q == 1,
        (psi_inv * psi) % q == 1,
    ensures
        pow(psi_inv, m) % q == 1,
{
    lemma_pow_distributes(psi_inv, psi, m);
    lemma_pow_mod_noop(psi_inv * psi, m, q);
    lemma1_pow(m);
    lemma_small_mod(1, q as nat);
    assert(pow(psi_inv * psi, m) % q == 1);
    lemma_mul_mod_noop(pow(psi_inv, m), pow(psi, m), q);
    let u = pow(psi_inv, m) % q;
    lemma_mod_bound(pow(psi_inv, m), q);
    lemma_small_mod(u as nat, q as nat);
    assert(u * 1 == u);
}

proof fn lemma_power_step(working: int, base: int, exp: nat, q: int)
    requires
        q >= 2,
    ensures
        (working * pow(base, exp)) % q == ((if exp % 2 == 1 { (working * base) % q } else {
            working
        }) * pow((base * base) % q, exp / 2)) % q,
{
    let h = exp / 2;
    let b = exp % 2;
    reveal(pow);
    lemma_pow_multiplies(base, 2, h);
    lemma_pow_adds(base, 2 * h, b);
    assert(exp == 2 * h + b);
    lemma_square_is_pow2(base);
    lemma_pow_mod_noop(base * base, h, q);
    let p = pow(base * base, h);
    let pm = pow((base * base) % q, h);
    assert(pow(base, exp) == pow(base, b) * p);
    if b == 1 {
        lemma_pow1(base);
        assert(working * pow(base, exp) == (working * base) * p) by (nonlinear_arith)
            requires
                pow(base, exp) == base * p,
        ;
        lemma_mul_mod_noop(working * base, p, q);
        lemma_mul_mod_noop((working * base) % q, pm, q);
        lemma_mod_twice(working * base, q);
    } else {
        lemma_pow0(base);
        lemma_mul_mod_noop(working, p, q);
        lemma_mul_mod_noop(working, pm, q);
    }
}

proof fn lemma_bit_rev_bound(x: int, k: nat)
    requires
        x >= 0,
    ensures
        0 <= bit_rev(x, k) < pow2(k),
    decreases k,
{
    lemma_pow2_pos(k);
    if k > 0 {
        let c = pow2((k - 1) as nat);
        lemma_bit_rev_bound(x / 2, (k - 1) as nat);
        lemma_pow2_unfold(k);
        assert((x % 2) * c + bit_rev(x / 2, (k - 1) as nat) < 2 * c) by (nonlinear_arith)
            requires
                0 <= x % 2 <= 1,
                0 <= bit_rev(x / 2, (k - 1) as nat) < c,
        ;
    }
}

proof fn lemma_bit_rev_top(y: int, b: int, k: nat)
    requires
        k >= 1,
        0 <= y < pow2((k - 1) as nat),
        0 <= b <= 1,
    ensures
        bit_rev(y + b * pow2((k - 1) as nat), k) == b + 2 * bit_rev(y, (k - 1) as nat),
    decreases k,
{
    let x = y + b * pow2((k - 1) as nat);
    if k == 1 {
        assert(pow2(0) == 1) by {
            lemma2_to64();
        }
        assert(y == 0);
        assert(x == b);
        assert(bit_rev(x, 1) == (x % 2) * pow2(0) + bit_rev(x / 2, 0));
        assert(bit_rev(x, 1) == b);
        assert(bit_rev(y, 0) == 0);
    } else {
        let m = (k - 2) as nat;
        lemma_pow2_unfold((k - 1) as nat);
        lemma_pow2_pos(m);
        let c = pow2(m);
        lemma_fundamental_div_mod(y, 2);
        assert(x == 2 * (y / 2 + b * c) + y % 2) by (nonlinear_arith)
            requires
                x == y + b * (2 * c),
                y == 2 * (y / 2) + y % 2,
        ;
        lemma_fundamental_div_mod_converse(x, 2, y / 2 + b * c, y % 2);
        lemma_bit_rev_top(y / 2, b, (k - 1) as nat);
        assert(x / 2 == y / 2 + b * c && x % 2 == y % 2);
        assert(bit_rev(x, k) == (y % 2) * (2 * c) + b + 2 * bit_rev(y / 2, m));
        assert(bit_rev(y, (k - 1) as nat) == (y % 2) * c + bit_rev(y / 2, m));
        assert((y % 2) * (2 * c) == 2 * ((y % 2) * c)) by (nonlinear_arith);
        assert(bit_rev(x, k) == b + 2 * bit_rev(y, (k - 1) as nat));
    }
}

/// Reversing the low `k` bits twice gives back any number below 2^k.
pub proof fn lemma_bit_reverse_involution(x: int, k: nat)
    requires
        0 <= x < pow2(k),
    ensures
        bit_rev(bit_rev(x, k), k) == x,
    decreases k,
{
    if k == 0 {
        assert(pow2(0) == 1) by {
            lemma2_to64();
        }
    } else {
        let y = x / 2;
        let b = x % 2;
        lemma_pow2_unfold(k);
        lemma_bit_rev_bound(y, (k - 1) as nat);
        lemma_bit_reverse_involution(y, (k - 1) as nat);
        lemma_bit_rev_top(bit_rev(y, (k - 1) as nat), b, k);
    }
}

pub(crate) proof fn lemma_n_bounds(r: NegacyclicRing)
    requires
        r.wf(),
    ensures
        2 <= r.n() <= 0x10000,
{
    lemma2_to64();
    if r.exponent > 1 {
        lemma_pow2_strictly_increases(1, r.exponent as nat);
    }
    if r.exponent < 16 {
        lemma_pow2_strictly_increases(r.exponent as nat, 16);
    }
}

pub(crate) proof fn lemma_padded_reduced(a: Seq<i32>, n: int, q: int)
    requires
        reduced(a, q),
        a.len() <= n,
        q >= 1,
    ensures
        reduced(padded(a, n), q),
        padded(a, n).len() == n,
{
    assert forall|i: int| 0 <= i < padded(a, n).len() implies 0 <= #[trigger] padded(a, n)[i] < q by {
        if i >= a.len() {
            assert(padded(a, n)[i] == 0);
        }
    }
}

impl NegacyclicRing {
    /// n = 2^exponent, the number of coefficients of a polynomial of the ring.
    pub open spec fn n(self) -> int {
        pow2(self.exponent as nat) as int
    }

    pub open spec fn q(self) -> int {
        self.modulus as int
    }

    /// The descriptor's numbers are in the range the arithmetic handles.
    pub open spec fn wf(self) -> bool {
        &&& 1 <= self.exponent <= MAX_EXPONENT
        &&& 2 <= self.modulus <= MAX_MODULUS
    }

    /// Creates the ring (X^n + 1)_q from the exponent of n and q.
    pub fn new(n: u32, q: i32) -> (r: Self)
        ensures
            r.exponent == n,
            r.modulus == q,
    {
        NegacyclicRing { modulus: q, exponent: n }
    }

    /// The primitive 2n-th root of unity the transforms use.
    pub open spec fn psi(self) -> int {
        twiddle_root(self.n(), self.q())
    }

    pub open spec fn psi_inv(self) -> int {
        least_inverse(self.psi(), self.q())
    }

    pub open spec fn n_inv(self) -> int {
        least_inverse(self.n(), self.q())
    }

    /// Both transforms are defined: the root exists, and it and n are invertible.
    pub open spec fn invertible(self) -> bool {
        &&& has_twiddle_root(self.n(), self.q())
        &&& has_inverse(self.psi(), self.q())
        &&& has_inverse(self.n(), self.q())
    }

    /// Coefficient `i` of the forward transform of `a`, zero-extended to n.
    pub open spec fn ntt_of(self, a: Seq<i32>, i: int) -> int {
        ntt_coeff(padded(a, self.n()), self.psi(), self.q(), i)
    }

    /// Coefficient `i` of the inverse transform of `a`, zero-extended to n.
    pub open spec fn intt_of(self, a: Seq<i32>, i: int) -> int {
        intt_coeff(padded(a, self.n()), self.psi_inv(), self.n_inv(), self.q(), i)
    }

    /// The forward transform of `a` as a polynomial of the ring.
    pub open spec fn ntt_spec(self, a: Seq<i32>) -> Seq<i32> {
        Seq::new(self.n() as nat, |i: int| self.ntt_of(a, i) as i32)
    }

    /// The inverse transform of `a` as a polynomial of the ring.
    pub open spec fn intt_spec(self, a: Seq<i32>) -> Seq<i32> {
        Seq::new(self.n() as nat, |i: int| self.intt_of(a, i) as i32)
    }

    /// n = 2^exponent.
    pub fn size(&self) -> (r: i32)
        requires
            self.exponent <= 30,
        ensures
            r == self.n(),
    {
        let mut r: i32 = 1;
        let mut i: u32 = 0;
        proof {
            lemma2_to64();
        }
        while i < self.exponent
            invariant
                i <= self.exponent <= 30,
                r == pow2(i as nat),
                pow2(30) == 0x40000000,
            decreases self.exponent - i,
        {
            proof {
                lemma_pow2_strictly_increases(i as nat, 30);
                lemma_pow2_unfold((i + 1) as nat);
            }
            r = r * 2;
            i = i + 1;
        }
        r
    }

    /// x^y modulo q, by square-and-multiply.
    pub fn power(&self, x: i32, y: i32) -> (r: i32)
        requires
            self.wf(),
            0 <= x,
            0 <= y,
        ensures
            r == pow(x as int, y as nat) % self.q(),
    {
        let q: i64 = self.modulus as i64;
        let mut working: i64 = 1;
        let mut base: i64 = x as i64 % q;
        let mut exp: i32 = y;
        proof {
            lemma_pow_mod_noop(x as int, y as nat, q as int);
            assert(working * pow(base as int, exp as nat) == pow(base as int, exp as nat));
        }
        while exp > 0
            invariant
                q == self.modulus,
                2 <= q <= MAX_MODULUS,
                0 <= working < q,
                0 <= base < q,
                0 <= exp,
                (working * pow(base as int, exp as nat)) % (q as int) == pow(x as int, y as nat) % (q as int),
            decreases exp,
        {
            proof {
                lemma_power_step(working as int, base as int, exp as nat, q as int);
            }
            assert(0 <= working * base <= q * q) by (nonlinear_arith)
                requires
                    0 <= working < q,
                    0 <= base < q,
            ;
            assert(0 <= base * base <= q * q) by (nonlinear_arith)
                requires
                    0 <= base < q,
            ;
            assert(q * q < 0x1000_0000_0000_0000) by (nonlinear_arith)
                requires
                    2 <= q <= MAX_MODULUS,
            ;
            if exp % 2 == 1 {
                working = (working * base) % q;
            }
            exp = exp / 2;
            base = (base * base) % q;
        }
        proof {
            lemma_pow0(base as int);
            lemma_small_mod(working as nat, q as nat);
        }
        working as i32
    }

    /// The low `k` bits of `x` in reverse order.
    pub fn bit_reverse(x: i32, k: i32) -> (r: i32)
        requires
            0 <= x,
            0 <= k <= 30,
        ensures
            r == bit_rev(x as int, k as nat),
            0 <= r < pow2(k as nat),
    {
        let mut v: i32 = x;
        let mut out: i32 = 0;
        let mut i: i32 = 0;
        proof {
            lemma2_to64();
        }
        while i < k
            invariant
                0 <= i <= k <= 30,
                0 <= v,
                0 <= out < pow2(i as nat),
                bit_rev(x as int, k as nat) == pow2((k - i) as nat) * out + bit_rev(
                    v as int,
                    (k - i) as nat,
                ),
                pow2(30) == 0x40000000,
            decreases k - i,
        {
            proof {
                let m = (k - i) as nat;
                lemma_pow2_unfold(m);
                lemma_pow2_unfold((i + 1) as nat);
                lemma_pow2_strictly_increases(i as nat, 30);
                let c = pow2((m - 1) as nat);
                assert(pow2(m) * out + (v % 2) * c == c * (2 * out + v % 2)) by (nonlinear_arith)
                    requires
                        pow2(m) == 2 * c,
                ;
            }
            out = 2 * out + v % 2;
            v = v / 2;
            i = i + 1;
        }
        proof {
            assert(i == k);
            assert(pow2(0) == 1);
            assert(bit_rev(v as int, 0) == 0);
            assert(bit_rev(x as int, k as nat) == pow2(0) * out + bit_rev(v as int, 0));
            lemma_bit_rev_bound(x as int, k as nat);
        }
        out
    }

    /// The least primitive n-th root of unity modulo q, if there is one.
    pub fn primitiventhunity(&self) -> (r: Option<i32>)
        requires
            self.wf(),
        ensures
            match r {
                Some(z) => is_least_primitive_root(z as int, self.n(), self.q()),
                None => forall|z: int|
                    0 <= z < self.q() ==> !#[trigger] is_primitive_root(z, self.n(), self.q()),
            },
    {
        let n = self.size();
        let q = self.modulus;
        let mut root: i32 = 0;
        proof {
            lemma_pow2_pos(self.exponent as nat);
        }
        while root < q
            invariant
                self.wf(),
                n == self.n(),
                q == self.q(),
                1 <= n,
                0 <= root <= q,
                forall|z: int| 0 <= z < root ==> !#[trigger] is_primitive_root(z, n as int, q as int),
            decreases q - root,
        {
            if self.power(root, n) == 1 {
                let mut taken = false;
                let mut k: i32 = 1;
                while k < n && !taken
                    invariant
                        self.wf(),
                        q == self.q(),
                        1 <= k <= n,
                        0 <= root < q,
                        !taken ==> forall|j: int| 0 < j < k ==> #[trigger] pow(root as int, j as nat) % (q as int) != 1,
                        taken ==> k < n && pow(root as int, k as nat) % (q as int) == 1,
                    decreases n - k + (if taken { 0int } else { 1int }),
                {
                    if self.power(root, k) == 1 {
                        taken = true;
                    } else {
                        k = k + 1;
                    }
                }
                if !taken {
                    return Some(root);
                }
                assert(!is_primitive_root(root as int, n as int, q as int)) by {
                    assert(pow(root as int, k as nat) % (q as int) == 1);
                }
            }
            root = root + 1;
        }
        None
    }

    /// The least psi in [0, q) with psi^2 = z and psi^n = -1 (mod q), for z the least
    /// primitive n-th root of unity: a primitive 2n-th root of unity.
    pub fn primitive2nthunity(&self) -> (r: Option<i32>)
        requires
            self.wf(),
        ensures
            r.is_some() == has_twiddle_root(self.n(), self.q()),
            r matches Some(psi) ==> {
                &&& psi == twiddle_root(self.n(), self.q())
                &&& 0 <= psi < self.q()
                &&& pow(psi as int, self.n() as nat) % self.q() == self.q() - 1
                &&& pow(psi as int, (2 * self.n()) as nat) % self.q() == 1
            },
    {
        let n = self.size();
        let q = self.modulus;
        let nth = self.primitiventhunity();
        match nth {
            None => {
                assert(!has_twiddle_root(n as int, q as int)) by {
                    if has_twiddle_root(n as int, q as int) {
                        let psi = twiddle_root(n as int, q as int);
                        assert(is_least_root_over(psi, n as int, q as int));
                    }
                }
                None
            },
            Some(z) => {
                let mut root: i32 = 0;
                while root < q
                    invariant
                        self.wf(),
                        n == self.n(),
                        q == self.q(),
                        0 <= root <= q,
                        is_least_primitive_root(z as int, n as int, q as int),
                        forall|r: int| 0 <= r < root ==> !#[trigger] is_root_over(r, z as int, n as int, q as int),
                    decreases q - root,
                {
                    if self.power(root, 2) == z && self.power(root, n) == q - 1 {
                        proof {
                            assert(is_least_root_over(root as int, n as int, q as int));
                            lemma_least_root_unique(n as int, q as int, root as int);
                            lemma_square_of_minus_one(root as int, n as nat, q as int);
                        }
                        return Some(root);
                    }
                    root = root + 1;
                }
                assert(!has_twiddle_root(n as int, q as int)) by {
                    if has_twiddle_root(n as int, q as int) {
                        let psi = twiddle_root(n as int, q as int);
                        assert(is_least_root_over(psi, n as int, q as int));
                        let z2 = choose|z2: int| #[trigger]
                            is_least_primitive_root(z2, n as int, q as int) && 0 <= psi < q
                                && is_root_over(psi, z2, n as int, q as int) && forall|r: int|
                                0 <= r < psi ==> !#[trigger] is_root_over(r, z2, n as int, q as int);
                        if z2 < z {
                            assert(!is_primitive_root(z2, n as int, q as int));
                        }
                        if z < z2 {
                            assert(!is_primitive_root(z as int, n as int, q as int));
                        }
                    }
                }
                None
            },
        }
    }

    /// Zero-extends a polynomial to the ring's n coefficients; `None` where it is longer.
    pub fn pad(&self, val: Vec<i32>) -> (r: Option<Vec<i32>>)
        requires
            self.wf(),
        ensures
            match r {
                Some(v) => val.len() <= self.n() && v@ == padded(val@, self.n()),
                None => val.len() > self.n(),
            },
    {
        let n = self.size() as usize;
        if val.len() > n {
            return None;
        }
        let mut out = val;
        while out.len() < n
            invariant
                n == self.n(),
                val.len() <= out.len() <= n,
                out@ == padded(val@, out.len() as int),
            decreases n - out.len(),
        {
            out.push(0);
            assert(out@ =~= padded(val@, out.len() as int));
        }
        assert(out@ =~= padded(val@, n as int));
        Some(out)
    }

    /// The least y in [1, q) with y * x = 1 (mod q), if there is one.
    pub fn inverse(&self, x: i32) -> (r: Option<i32>)
        requires
            self.wf(),
            0 <= x,
        ensures
            r.is_some() == has_inverse(x as int, self.q()),
            r matches Some(y) ==> y == least_inverse(x as int, self.q()) && is_least_inverse(
                y as int,
                x as int,
                self.q(),
            ),
    {
        let q = self.modulus;
        let mut i: i32 = 1;
        while i < q
            invariant
                self.wf(),
                q == self.q(),
                1 <= i <= q,
                0 <= x,
                forall|j: int| 1 <= j < i ==> !#[trigger] is_inverse(j, x as int, q as int),
            decreases q - i,
        {
            assert(0 <= i * x <= q * 0x8000_0000) by (nonlinear_arith)
                requires
                    1 <= i < q,
                    0 <= x < 0x8000_0000,
            ;
            assert(q * 0x8000_0000 <= 0x4000_0000_0000_0000) by (nonlinear_arith)
                requires
                    q <= MAX_MODULUS,
            ;
            if (i as i64 * x as i64) % (q as i64) == 1 {
                proof {
                    lemma_least_inverse_unique(x as int, q as int, i as int);
                }
                return Some(i);
            }
            i = i + 1;
        }
        assert(!has_inverse(x as int, q as int)) by {
            if has_inverse(x as int, q as int) {
                let y = least_inverse(x as int, q as int);
                assert(is_least_inverse(y, x as int, q as int));
            }
        }
        None
    }

    /// root^e mod q for e < m.
    fn power_table(&self, root: i32, m: usize) -> (r: Vec<i64>)
        requires
            self.wf(),
            0 <= root < self.q(),
        ensures
            is_power_table(r@, root as int, self.q(), m as int),
            forall|e: int| 0 <= e < m ==> 0 <= #[trigger] r@[e] < self.q(),
    {
        let q: i64 = self.modulus as i64;
        let mut tab: Vec<i64> = Vec::new();
        let mut cur: i64 = 1;
        let mut e: usize = 0;
        proof {
            lemma_pow0(root as int);
            lemma_small_mod(1, q as nat);
        }
        while e < m
            invariant
                q == self.q(),
                2 <= q <= MAX_MODULUS,
                0 <= root < q,
                e <= m,
                0 <= cur < q,
                cur == pow(root as int, e as nat) % (q as int),
                is_power_table(tab@, root as int, q as int, e as int),
                forall|t: int| 0 <= t < e ==> 0 <= #[trigger] tab@[t] < q,
            decreases m - e,
        {
            tab.push(cur);
            proof {
                reveal(pow);
                assert(pow(root as int, (e + 1) as nat) == root * pow(root as int, e as nat));
                lemma_mul_mod_noop_left(pow(root as int, e as nat), root as int, q as int);
                assert(pow(root as int, e as nat) * root == root * pow(root as int, e as nat))
                    by (nonlinear_arith);
            }
            assert(0 <= cur * root as i64 <= q * q <= 0x1_0000_0000) by (nonlinear_arith)
                requires
                    0 <= cur < q,
                    0 <= root < q,
                    q <= 0x10000,
            ;
            cur = (cur * root as i64) % q;
            e = e + 1;
        }
        tab
    }

    /// `val` evaluated at root^s, modulo q, read off a table of the powers of a root of
    /// order dividing 2 len.
    fn eval_table(&self, val: &Vec<i32>, tab: &Vec<i64>, root: Ghost<int>, s: usize) -> (r: i64)
        requires
            self.wf(),
            1 <= val.len() <= 0x10000,
            reduced(val@, self.q()),
            is_power_table(tab@, root@, self.q(), 2 * val.len()),
            forall|e: int| 0 <= e < tab.len() ==> 0 <= #[trigger] tab@[e] < self.q(),
            pow(root@, (2 * val.len()) as nat) % self.q() == 1,
            s < 2 * val.len(),
        ensures
            0 <= r < self.q(),
            r == eval_poly(val@, pow(root@, s as nat) % self.q(), val.len() as nat) % self.q(),
    {
        let q: i64 = self.modulus as i64;
        let len = val.len();
        let m = 2 * len;
        let mut sum: i64 = 0;
        let mut e: usize = 0;
        let mut j: usize = 0;
        proof {
            lemma_small_mod(0, m as nat);
        }
        while j < len
            invariant
                q == self.q(),
                2 <= q <= MAX_MODULUS,
                len == val.len() <= 0x10000,
                m == 2 * len,
                tab.len() == m,
                s < m,
                reduced(val@, q as int),
                forall|t: int| 0 <= t < tab.len() ==> 0 <= #[trigger] tab@[t] < q,
                j <= len,
                e < m,
                e == (s * j) % (m as int),
                sum == table_dot(val@, tab@, s as int, m as int, j as nat),
                0 <= sum <= j * q * q,
            decreases len - j,
        {
            let a = val[j] as i64;
            let t = tab[e];
            assert(0 <= a * t <= q * q) by (nonlinear_arith)
                requires
                    0 <= a < q,
                    0 <= t < q,
            ;
            assert(j * q * q + q * q == (j + 1) * q * q) by (nonlinear_arith);
            assert((j + 1) * q * q <= 0x10000 * 0x10000 * 0x10000) by (nonlinear_arith)
                requires
                    j + 1 <= 0x10000,
                    q <= 0x10000,
                    q >= 0,
            ;
            sum = sum + a * t;
            proof {
                lemma_add_mod_noop(s * j, s as int, m as int);
                lemma_small_mod(s as nat, m as nat);
                lemma_mod_bound(s * j, m as int);
                assert(s * (j + 1) == s * j + s) by (nonlinear_arith);
                if e + s >= m {
                    lemma_fundamental_div_mod_converse((e + s) as int, m as int, 1, (e + s - m) as int);
                } else {
                    lemma_small_mod((e + s) as nat, m as nat);
                }
            }
            e = e + s;
            if e >= m {
                e = e - m;
            }
            j = j + 1;
        }
        proof {
            lemma_table_dot(val@, tab@, root@, s as nat, m as nat, q as int, len as nat);
        }
        sum % q
    }

    /// Evaluates `val` at root^(2i+1) for each index i, modulo q; `root` has order
    /// dividing 2 len.
    pub fn transform(&self, val: &Vec<i32>, root: i32) -> (r: Vec<i32>)
        requires
            self.wf(),
            0 <= root < self.q(),
            1 <= val.len() <= 0x10000,
            reduced(val@, self.q()),
            pow(root as int, (2 * val.len()) as nat) % self.q() == 1,
        ensures
            r.len() == val.len(),
            forall|i: int| 0 <= i < r.len() ==> #[trigger] r[i] == ntt_coeff(val@, root as int, self.q(), i),
            reduced(r@, self.q()),
    {
        let len = val.len();
        let tab = self.power_table(root, 2 * len);
        let mut out: Vec<i32> = Vec::new();
        let mut i: usize = 0;
        while i < len
            invariant
                self.wf(),
                0 <= root < self.q(),
                1 <= len == val.len() <= 0x10000,
                reduced(val@, self.q()),
                is_power_table(tab@, root as int, self.q(), 2 * len),
                forall|e: int| 0 <= e < tab.len() ==> 0 <= #[trigger] tab@[e] < self.q(),
                pow(root as int, (2 * len) as nat) % self.q() == 1,
                i <= len,
                out.len() == i,
                forall|t: int| 0 <= t < i ==> #[trigger] out[t] == ntt_coeff(val@, root as int, self.q(), t),
                reduced(out@, self.q()),
            decreases len - i,
        {
            let acc = self.eval_table(val, &tab, Ghost(root as int), 2 * i + 1);
            out.push(acc as i32);
            i = i + 1;
        }
        out
    }

    /// The inverse of `transform` for root_inv = root^-1 and n_inv = n^-1: coefficient k
    /// is n_inv * root_inv^k * sum_i val[i] root_inv^(2ik), modulo q.
    pub fn inverse_transform(&self, val: &Vec<i32>, root_inv: i32, n_inv: i32) -> (r: Vec<i32>)
        requires
            self.wf(),
            0 <= root_inv < self.q(),
            0 <= n_inv < self.q(),
            1 <= val.len() <= 0x10000,
            reduced(val@, self.q()),
            pow(root_inv as int, (2 * val.len()) as nat) % self.q() == 1,
        ensures
            r.len() == val.len(),
            forall|i: int|
                0 <= i < r.len() ==> #[trigger] r[i] == intt_coeff(val@, root_inv as int, n_inv as int, self.q(), i),
            reduced(r@, self.q()),
    {
        let q: i64 = self.modulus as i64;
        let len = val.len();
        let tab = self.power_table(root_inv, 2 * len);
        let mut out: Vec<i32> = Vec::new();
        let mut k: usize = 0;
        while k < len
            invariant
                self.wf(),
                q == self.q(),
                0 <= root_inv < q,
                0 <= n_inv < q,
                1 <= len == val.len() <= 0x10000,
                reduced(val@, q as int),
                is_power_table(tab@, root_inv as int, q as int, 2 * len),
                forall|e: int| 0 <= e < tab.len() ==> 0 <= #[trigger] tab@[e] < q,
                pow(root_inv as int, (2 * len) as nat) % (q as int) == 1,
                k <= len,
                out.len() == k,
                forall|t: int| 0 <= t < k ==> #[trigger] out[t] == intt_coeff(val@, root_inv as int, n_inv as int, q as int, t),
                reduced(out@, q as int),
            decreases len - k,
        {
            let acc = self.eval_table(val, &tab, Ghost(root_inv as int), 2 * k);
            let tw = tab[k];
            assert(tw == pow(root_inv as int, k as nat) % (q as int));
            assert(0 <= n_inv * tw <= q * q <= 0x1_0000_0000) by (nonlinear_arith)
                requires
                    0 <= tw < q,
                    0 <= n_inv < q,
                    q <= 0x10000,
            ;
            let c = (n_inv as i64 * tw) % q;
            assert(0 <= c * acc <= q * q <= 0x1_0000_0000) by (nonlinear_arith)
                requires
                    0 <= c < q,
                    0 <= acc < q,
                    q <= 0x10000,
            ;
            out.push(((c * acc) % q) as i32);
            k = k + 1;
        }
        out
    }

    /// The root, its inverse and the inverse of n, which the transforms need.
    pub fn transform_roots(&self) -> (r: Result<(i32, i32, i32), RlweError>)
        requires
            self.wf(),
        ensures
            r.is_ok() == self.invertible(),
            r matches Ok((psi, psi_inv, n_inv)) ==> {
                &&& psi == self.psi() && psi_inv == self.psi_inv() && n_inv == self.n_inv()
                &&& 0 <= psi < self.q() && 0 <= psi_inv < self.q() && 0 <= n_inv < self.q()
                &&& pow(psi as int, (2 * self.n()) as nat) % self.q() == 1
                &&& pow(psi_inv as int, (2 * self.n()) as nat) % self.q() == 1
            },
            r matches Err(e) ==> e == RlweError::InvalidRing,
    {
        let n = self.size();
        proof {
            lemma_n_bounds(*self);
        }
        let psi = match self.primitive2nthunity() {
            Some(p) => p,
            None => return Err(RlweError::InvalidRing),
        };
        let psi_inv = match self.inverse(psi) {
            Some(p) => p,
            None => return Err(RlweError::InvalidRing),
        };
        let n_inv = match self.inverse(n) {
            Some(p) => p,
            None => return Err(RlweError::InvalidRing),
        };
        proof {
            lemma_inverse_root_period(psi as int, psi_inv as int, (2 * n) as nat, self.q());
        }
        Ok((psi, psi_inv, n_inv))
    }

    /// Number theoretic transform: the polynomial, zero-extended to n coefficients,
    /// evaluated at the odd powers psi^(2i+1) of the primitive 2n-th root psi.
    pub fn ntt(&self, val: Vec<i32>) -> (r: Result<Vec<i32>, RlweError>)
        requires
            self.wf(),
            reduced(val@, self.q()),
        ensures
            match r {
                Ok(v) => {
                    &&& val.len() <= self.n() && has_twiddle_root(self.n(), self.q())
                    &&& v.len() == self.n()
                    &&& forall|i: int| 0 <= i < v.len() ==> #[trigger] v[i] == self.ntt_of(val@, i)
                    &&& v@ == self.ntt_spec(val@)
                    &&& reduced(v@, self.q())
                },
                Err(e) => (e == RlweError::TooLong && val.len() > self.n()) || (e
                    == RlweError::InvalidRing && val.len() <= self.n() && !has_twiddle_root(
                    self.n(),
                    self.q(),
                )),
            },
    {
        proof {
            lemma_n_bounds(*self);
        }
        let padded_val = match self.pad(val) {
            Some(v) => v,
            None => return Err(RlweError::TooLong),
        };
        proof {
            lemma_padded_reduced(val@, self.n(), self.q());
        }
        let psi = match self.primitive2nthunity() {
            Some(p) => p,
            None => return Err(RlweError::InvalidRing),
        };
        let v = self.transform(&padded_val, psi);
        assert(v@ =~= self.ntt_spec(val@));
        Ok(v)
    }

    /// Inverse number theoretic transform: undoes `ntt` on polynomials of the ring.
    pub fn intt(&self, val: Vec<i32>) -> (r: Result<Vec<i32>, RlweError>)
        requires
            self.wf(),
            reduced(val@, self.q()),
        ensures
            match r {
                Ok(v) => {
                    &&& val.len() <= self.n() && self.invertible()
                    &&& v.len() == self.n()
                    &&& forall|i: int| 0 <= i < v.len() ==> #[trigger] v[i] == self.intt_of(val@, i)
                    &&& v@ == self.intt_spec(val@)
                    &&& reduced(v@, self.q())
                },
                Err(e) => (e == RlweError::TooLong && val.len() > self.n()) || (e
                    == RlweError::InvalidRing && val.len() <= self.n() && !self.invertible()),
            },
    {
        proof {
            lemma_n_bounds(*self);
        }
        let padded_val = match self.pad(val) {
            Some(v) => v,
            None => return Err(RlweError::TooLong),
        };
        proof {
            lemma_padded_reduced(val@, self.n(), self.q());
        }
        let (_psi, psi_inv, n_inv) = self.transform_roots()?;
        let v = self.inverse_transform(&padded_val, psi_inv, n_inv);
        assert(v@ =~= self.intt_spec(val@));
        Ok(v)
    }
}

} // verus!
