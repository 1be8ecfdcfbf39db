use crate::ring::{NegacyclicRing, RlweError, padded, reduced};
use vstd::arithmetic::power::pow;
use vstd::prelude::*;

verus! {

/// Signal bit of one coefficient: 0 in the central band [q/4, 3q/4], 1 outside it.
pub open spec fn signal_bit(v: i32, q: int) -> i32 {
    if v < q / 4 || v > 3 * q / 4 {
        1
    } else {
        0
    }
}

/// Pointwise a[i] * s[i] + 2 e[i], modulo q.
pub open spec fn mul_add(a: Seq<i32>, s: Seq<i32>, e: Seq<i32>, q: int) -> Seq<i32> {
    Seq::new(a.len(), |i: int| ((a[i] * s[i] + 2 * e[i]) % q) as i32)
}

/// Pointwise x[i] + w[i] (q - 1) / 2, modulo q.
pub open spec fn mix(x: Seq<i32>, w: Seq<i32>, q: int) -> Seq<i32> {
    Seq::new(x.len(), |i: int| ((x[i] + w[i] * ((q - 1) / 2)) % q) as i32)
}

/// A uniform coefficient from a random word: |x| mod q.
pub open spec fn uniform_coeff(x: i32, q: int) -> int {
    (if x < 0 {
        -(x as int)
    } else {
        x as int
    }) % q
}

/// A centered binomial coefficient (parameter 2) from the low four bits of a random word:
/// bit0 + bit1 - bit2 - bit3, reduced into [0, q).
pub open spec fn error_coeff(x: i32, q: int) -> int {
    let u = (x as int + 0x8000_0000) % 16;
    ((u % 2 + (u / 2) % 2) - ((u / 4) % 2 + (u / 8) % 2) + q) % q
}

pub open spec fn uniform_poly(w: Seq<i32>, q: int) -> Seq<i32> {
    Seq::new(w.len(), |i: int| uniform_coeff(w[i], q) as i32)
}

pub open spec fn error_poly(w: Seq<i32>, q: int) -> Seq<i32> {
    Seq::new(w.len(), |i: int| error_coeff(w[i], q) as i32)
}

impl NegacyclicRing {
    /// The signal of a coefficient-space polynomial, as a polynomial of n coefficients.
    pub open spec fn signal_spec(self, v: Seq<i32>) -> Seq<i32> {
        Seq::new(
            self.n() as nat,
            |i: int|
                if i < v.len() {
                    signal_bit(v[i], self.q())
                } else {
                    0
                },
        )
    }

    /// The shared bits from an NTT-space key `x` and an NTT-space signal `w`.
    pub open spec fn reconcile_spec(self, x: Seq<i32>, w: Seq<i32>) -> Seq<i32> {
        Seq::new(self.n() as nat, |i: int| (self.intt_of(mix(x, w, self.q()), i) % 2) as i32)
    }

    /// Block `k` of n words of `words`.
    pub open spec fn words_at(self, words: Seq<i32>, k: int) -> Seq<i32> {
        words.subrange(k * self.n(), (k + 1) * self.n())
    }

    /// The uniform polynomial drawn from block `k` of `words`, in NTT space.
    pub open spec fn uniform_ntt(self, words: Seq<i32>, k: int) -> Seq<i32> {
        self.ntt_spec(uniform_poly(self.words_at(words, k), self.q()))
    }

    /// The error polynomial drawn from block `k` of `words`, in NTT space.
    pub open spec fn error_ntt(self, words: Seq<i32>, k: int) -> Seq<i32> {
        self.ntt_spec(error_poly(self.words_at(words, k), self.q()))
    }

    /// The response side's key k_r = p s_r + 2 e2_r, for request key p and random words.
    pub open spec fn response_key(self, p: Seq<i32>, words: Seq<i32>) -> Seq<i32> {
        mul_add(p, self.error_ntt(words, 0), self.error_ntt(words, 2), self.q())
    }

    /// The response's signal w = NTT(signal(NTT^-1(k_r))).
    pub open spec fn response_signal(self, p: Seq<i32>, words: Seq<i32>) -> Seq<i32> {
        self.ntt_spec(self.signal_spec(self.intt_spec(self.response_key(p, words))))
    }

    /// The response's public polynomial p_r = a s_r + 2 e_r.
    pub open spec fn response_public(self, a: Seq<i32>, words: Seq<i32>) -> Seq<i32> {
        mul_add(a, self.error_ntt(words, 0), self.error_ntt(words, 1), self.q())
    }

    /// The response side's shared bits.
    pub open spec fn response_shared(self, p: Seq<i32>, words: Seq<i32>) -> Seq<i32> {
        self.reconcile_spec(self.response_key(p, words), self.response_signal(p, words))
    }

    /// The request side's shared bits: reconcile(p_r s + 2 e2_i, w).
    pub open spec fn parse_shared(self, s: Seq<i32>, w: Seq<i32>, p: Seq<i32>, words: Seq<i32>) -> Seq<i32> {
        self.reconcile_spec(mul_add(p, s, self.error_ntt(words, 0), self.q()), w)
    }
}

proof fn lemma_padded_full(a: Seq<i32>)
    ensures
        padded(a, a.len() as int) == a,
{
    assert(padded(a, a.len() as int) =~= a);
}

fn copy_poly(v: &Vec<i32>) -> (r: Vec<i32>)
    ensures
        r@ == v@,
{
    let mut r: Vec<i32> = Vec::new();
    let mut i: usize = 0;
    while i < v.len()
        invariant
            i <= v.len(),
            r@ == v@.subrange(0, i as int),
        decreases v.len() - i,
    {
        r.push(v[i]);
        i = i + 1;
        assert(r@ =~= v@.subrange(0, i as int));
    }
    assert(r@ =~= v@);
    r
}

impl NegacyclicRing {
    /// Marks each coefficient outside the central band [q/4, 3q/4] with 1, others with 0;
    /// the result has n coefficients.
    pub fn signal(&self, poly: Vec<i32>) -> (r: Vec<i32>)
        requires
            self.wf(),
            poly.len() <= self.n(),
        ensures
            r@ == self.signal_spec(poly@),
            reduced(r@, self.q()),
    {
        let n = self.size() as usize;
        let q = self.modulus as i64;
        let min_bound = q / 4;
        let max_bound = 3 * q / 4;
        let mut out: Vec<i32> = Vec::new();
        let mut i: usize = 0;
        while i < n
            invariant
                self.wf(),
                n == self.n(),
                q == self.q(),
                min_bound == q / 4,
                max_bound == 3 * q / 4,
                poly.len() <= n,
                i <= n,
                out@ == self.signal_spec(poly@).subrange(0, i as int),
            decreases n - i,
        {
            let bit: i32 = if i < poly.len() && ((poly[i] as i64) < min_bound || (poly[i] as i64)
                > max_bound) {
                1
            } else {
                0
            };
            out.push(bit);
            i = i + 1;
            assert(out@ =~= self.signal_spec(poly@).subrange(0, i as int));
        }
        assert(out@ =~= self.signal_spec(poly@));
        out
    }

    /// n uniform coefficients in [0, q) from the words words[start..start + n].
    pub fn rand(&self, words: &Vec<i32>, start: usize) -> (r: Vec<i32>)
        requires
            self.wf(),
            start + self.n() <= words.len(),
        ensures
            r@ == uniform_poly(words@.subrange(start as int, start + self.n()), self.q()),
            reduced(r@, self.q()),
    {
        let n = self.size() as usize;
        let q = self.modulus as i64;
        let mut out: Vec<i32> = Vec::new();
        let mut i: usize = 0;
        while i < n
            invariant
                self.wf(),
                n == self.n(),
                q == self.q(),
                start + n <= words.len(),
                i <= n,
                out@ == uniform_poly(words@.subrange(start as int, start + n), q as int).subrange(0, i as int),
            decreases n - i,
        {
            let x = words[start + i] as i64;
            let a: i64 = if x < 0 {
                -x
            } else {
                x
            };
            out.push((a % q) as i32);
            i = i + 1;
            assert(out@ =~= uniform_poly(words@.subrange(start as int, start + n), q as int).subrange(0, i as int));
        }
        assert(out@ =~= uniform_poly(words@.subrange(start as int, start + n), q as int));
        out
    }

    /// n small error coefficients (centered binomial, parameter 2) from the words
    /// words[start..start + n], reduced into [0, q).
    pub fn sample(&self, words: &Vec<i32>, start: usize) -> (r: Vec<i32>)
        requires
            self.wf(),
            start + self.n() <= words.len(),
        ensures
            r@ == error_poly(words@.subrange(start as int, start + self.n()), self.q()),
            reduced(r@, self.q()),
    {
        let n = self.size() as usize;
        let q = self.modulus as i64;
        let mut out: Vec<i32> = Vec::new();
        let mut i: usize = 0;
        while i < n
            invariant
                self.wf(),
                n == self.n(),
                q == self.q(),
                start + n <= words.len(),
                i <= n,
                out@ == error_poly(words@.subrange(start as int, start + n), q as int).subrange(0, i as int),
            decreases n - i,
        {
            let u = (words[start + i] as i64 + 0x8000_0000) % 16;
            let v = (u % 2 + (u / 2) % 2) - ((u / 4) % 2 + (u / 8) % 2);
            out.push(((v + q) % q) as i32);
            i = i + 1;
            assert(out@ =~= error_poly(words@.subrange(start as int, start + n), q as int).subrange(0, i as int));
        }
        assert(out@ =~= error_poly(words@.subrange(start as int, start + n), q as int));
        out
    }

    /// Pointwise a[i] * s[i] + 2 e[i] modulo q, on NTT-space polynomials.
    fn mul_add_error(&self, a: &Vec<i32>, s: &Vec<i32>, e: &Vec<i32>) -> (r: Vec<i32>)
        requires
            self.wf(),
            a.len() == s.len(),
            a.len() == e.len(),
            reduced(a@, self.q()),
            reduced(s@, self.q()),
            reduced(e@, self.q()),
        ensures
            r@ == mul_add(a@, s@, e@, self.q()),
            reduced(r@, self.q()),
    {
        let q = self.modulus as i64;
        let mut out: Vec<i32> = Vec::new();
        let mut i: usize = 0;
        while i < a.len()
            invariant
                self.wf(),
                q == self.q(),
                a.len() == s.len(),
                a.len() == e.len(),
                reduced(a@, q as int),
                reduced(s@, q as int),
                reduced(e@, q as int),
                i <= a.len(),
                out@ == mul_add(a@, s@, e@, q as int).subrange(0, i as int),
            decreases a.len() - i,
        {
            let x = a[i] as i64;
            let y = s[i] as i64;
            let z = e[i] as i64;
            assert(0 <= x * y <= q * q && q * q <= 0x1000_0000_0000_0000) by (nonlinear_arith)
                requires
                    0 <= x < q,
                    0 <= y < q,
                    q <= 1073741823,
            ;
            out.push(((x * y + 2 * z) % q) as i32);
            i = i + 1;
            assert(out@ =~= mul_add(a@, s@, e@, q as int).subrange(0, i as int));
        }
        assert(out@ =~= mul_add(a@, s@, e@, q as int));
        out
    }

    /// The forward transform of a polynomial of n coefficients with the ring's root.
    fn ntt_full(&self, val: &Vec<i32>, psi: i32) -> (r: Vec<i32>)
        requires
            self.wf(),
            val.len() == self.n(),
            psi == self.psi(),
            0 <= psi < self.q(),
            pow(psi as int, (2 * self.n()) as nat) % self.q() == 1,
            reduced(val@, self.q()),
        ensures
            r@ == self.ntt_spec(val@),
            reduced(r@, self.q()),
    {
        proof {
            lemma_padded_full(val@);
            crate::ring::lemma_n_bounds(*self);
        }
        let r = self.transform(val, psi);
        assert(r@ =~= self.ntt_spec(val@));
        r
    }

    /// The inverse transform of a polynomial of n coefficients.
    fn intt_full(&self, val: &Vec<i32>, psi_inv: i32, n_inv: i32) -> (r: Vec<i32>)
        requires
            self.wf(),
            val.len() == self.n(),
            psi_inv == self.psi_inv(),
            n_inv == self.n_inv(),
            0 <= psi_inv < self.q(),
            0 <= n_inv < self.q(),
            pow(psi_inv as int, (2 * self.n()) as nat) % self.q() == 1,
            reduced(val@, self.q()),
        ensures
            r@ == self.intt_spec(val@),
            reduced(r@, self.q()),
    {
        proof {
            lemma_padded_full(val@);
            crate::ring::lemma_n_bounds(*self);
        }
        let r = self.inverse_transform(val, psi_inv, n_inv);
        assert(r@ =~= self.intt_spec(val@));
        r
    }

    /// The shared bits: pointwise x[i] + w[i] (q - 1) / 2, inverse transform, each
    /// coefficient mod 2.
    fn reconcile(&self, x: &Vec<i32>, w: &Vec<i32>, psi_inv: i32, n_inv: i32) -> (r: Vec<i32>)
        requires
            self.wf(),
            x.len() == self.n(),
            w.len() == self.n(),
            reduced(x@, self.q()),
            reduced(w@, self.q()),
            psi_inv == self.psi_inv(),
            n_inv == self.n_inv(),
            0 <= psi_inv < self.q(),
            0 <= n_inv < self.q(),
            pow(psi_inv as int, (2 * self.n()) as nat) % self.q() == 1,
        ensures
            r@ == self.reconcile_spec(x@, w@),
    {
        let q = self.modulus as i64;
        let half = (q - 1) / 2;
        let mut y: Vec<i32> = Vec::new();
        let mut i: usize = 0;
        while i < x.len()
            invariant
                self.wf(),
                q == self.q(),
                half == (q - 1) / 2,
                x.len() == w.len(),
                reduced(x@, q as int),
                reduced(w@, q as int),
                i <= x.len(),
                y@ == mix(x@, w@, q as int).subrange(0, i as int),
            decreases x.len() - i,
        {
            let a = x[i] as i64;
            let b = w[i] as i64;
            assert(0 <= b * half <= q * q && q * q <= 0x1000_0000_0000_0000) by (nonlinear_arith)
                requires
                    0 <= b < q,
                    0 <= half < q,
                    q <= 1073741823,
            ;
            y.push(((a + b * half) % q) as i32);
            i = i + 1;
            assert(y@ =~= mix(x@, w@, q as int).subrange(0, i as int));
        }
        assert(y@ =~= mix(x@, w@, q as int));
        assert(reduced(y@, q as int));
        let t = self.intt_full(&y, psi_inv, n_inv);
        let mut out: Vec<i32> = Vec::new();
        let mut j: usize = 0;
        while j < t.len()
            invariant
                t@ == self.intt_spec(y@),
                reduced(t@, self.q()),
                t.len() == self.n(),
                y@ == mix(x@, w@, self.q()),
                j <= t.len(),
                out@ == self.reconcile_spec(x@, w@).subrange(0, j as int),
            decreases t.len() - j,
        {
            out.push(t[j] % 2);
            j = j + 1;
            assert(out@ =~= self.reconcile_spec(x@, w@).subrange(0, j as int));
        }
        assert(out@ =~= self.reconcile_spec(x@, w@));
        out
    }

    /// Combines an NTT-space key with an NTT-space signal into the shared bits.
    pub fn modulo2(&self, a: Vec<i32>, b: Vec<i32>) -> (r: Result<Vec<i32>, RlweError>)
        requires
            self.wf(),
            a.len() == self.n(),
            b.len() == self.n(),
            reduced(a@, self.q()),
            reduced(b@, self.q()),
        ensures
            r.is_ok() == self.invertible(),
            r matches Ok(v) ==> v@ == self.reconcile_spec(a@, b@),
            r matches Err(e) ==> e == RlweError::InvalidRing,
    {
        let (_psi, psi_inv, n_inv) = self.transform_roots()?;
        Ok(self.reconcile(&a, &b, psi_inv, n_inv))
    }
}

/// The key exchange operations.
pub struct RLWE;

/// A public keypair of the exchange, in NTT space: (a, p) in a request, (w, p) in a response.
#[derive(Clone, Debug, PartialEq, Eq)]
pub struct PublicKeypair {
    pub a: Vec<i32>,
    pub p: Vec<i32>,
}

/// A private keypair of the exchange, in NTT space.
#[derive(Clone, Debug, PartialEq, Eq)]
pub struct PrivateKeypair {
    pub a: Vec<i32>,
    pub s: Vec<i32>,
}

impl RLWE {
    /// The request side's keys. `words` holds 3n random words: block 0 gives the uniform
    /// `a`, blocks 1 and 2 the errors `s` and `e`; p = a s + 2 e in NTT space.
    pub fn generate(ring: NegacyclicRing, words: &Vec<i32>) -> (r: Result<
        (PrivateKeypair, PublicKeypair),
        RlweError,
    >)
        requires
            ring.wf(),
            words.len() >= 3 * ring.n(),
        ensures
            r.is_ok() == ring.invertible(),
            r matches Ok((private, public)) ==> {
                let a = ring.uniform_ntt(words@, 0);
                let s = ring.error_ntt(words@, 1);
                let e = ring.error_ntt(words@, 2);
                &&& private.a@ == a && private.s@ == s
                &&& public.a@ == a && public.p@ == mul_add(a, s, e, ring.q())
            },
            r matches Err(e) ==> e == RlweError::InvalidRing,
    {
        proof {
            crate::ring::lemma_n_bounds(ring);
        }
        let n = ring.size() as usize;
        let (psi, _psi_inv, _n_inv) = ring.transform_roots()?;
        let a = ring.ntt_full(&ring.rand(words, 0), psi);
        let s = ring.ntt_full(&ring.sample(words, n), psi);
        let e = ring.ntt_full(&ring.sample(words, 2 * n), psi);
        let p = ring.mul_add_error(&a, &s, &e);
        let a2 = copy_poly(&a);
        Ok((PrivateKeypair { a: a2, s }, PublicKeypair { a, p }))
    }

    /// The response side: from the request's public keys and 3n random words (blocks
    /// s_r, e_r, e2_r), the shared bits and the response keys (w, p_r), where
    /// p_r = a s_r + 2 e_r, k_r = p s_r + 2 e2_r, w = NTT(signal(NTT^-1(k_r))).
    pub fn respond(ring: NegacyclicRing, key: PublicKeypair, words: &Vec<i32>) -> (r: Result<
        (Vec<i32>, PublicKeypair),
        RlweError,
    >)
        requires
            ring.wf(),
            key.a.len() == ring.n(),
            key.p.len() == ring.n(),
            reduced(key.a@, ring.q()),
            reduced(key.p@, ring.q()),
            words.len() >= 3 * ring.n(),
        ensures
            r.is_ok() == ring.invertible(),
            r matches Ok((shared, response)) ==> {
                &&& response.p@ == ring.response_public(key.a@, words@)
                &&& response.a@ == ring.response_signal(key.p@, words@)
                &&& shared@ == ring.response_shared(key.p@, words@)
            },
            r matches Err(e) ==> e == RlweError::InvalidRing,
    {
        proof {
            crate::ring::lemma_n_bounds(ring);
        }
        let n = ring.size() as usize;
        let (psi, psi_inv, n_inv) = ring.transform_roots()?;
        let sr = ring.ntt_full(&ring.sample(words, 0), psi);
        let er = ring.ntt_full(&ring.sample(words, n), psi);
        let e2r = ring.ntt_full(&ring.sample(words, 2 * n), psi);
        let pr = ring.mul_add_error(&key.a, &sr, &er);
        let kr = ring.mul_add_error(&key.p, &sr, &e2r);
        let kr_raw = ring.intt_full(&kr, psi_inv, n_inv);
        let w = ring.ntt_full(&ring.signal(kr_raw), psi);
        let shared = ring.reconcile(&kr, &w, psi_inv, n_inv);
        Ok((shared, PublicKeypair { a: w, p: pr }))
    }

    /// The request side's shared bits from its private keys, the response and n random
    /// words (the error e2_i): reconcile(p s + 2 e2_i, w).
    pub fn parse(
        ring: NegacyclicRing,
        private: PrivateKeypair,
        public: PublicKeypair,
        words: &Vec<i32>,
    ) -> (r: Result<Vec<i32>, RlweError>)
        requires
            ring.wf(),
            private.s.len() == ring.n(),
            public.a.len() == ring.n(),
            public.p.len() == ring.n(),
            reduced(private.s@, ring.q()),
            reduced(public.a@, ring.q()),
            reduced(public.p@, ring.q()),
            words.len() >= ring.n(),
        ensures
            r.is_ok() == ring.invertible(),
            r matches Ok(shared) ==> shared@ == ring.parse_shared(private.s@, public.a@, public.p@, words@),
            r matches Err(e) ==> e == RlweError::InvalidRing,
    {
        proof {
            crate::ring::lemma_n_bounds(ring);
        }
        let (psi, psi_inv, n_inv) = ring.transform_roots()?;
        let e2i = ring.ntt_full(&ring.sample(words, 0), psi);
        let ki = ring.mul_add_error(&public.p, &private.s, &e2i);
        Ok(ring.reconcile(&ki, &public.a, psi_inv, n_inv))
    }
}

} // verus!
