//! Radix-2 FFT engine over the scalar field.
//!
//! A context is built once per transform size `2^k` and holds the
//! precomputed twiddle factors, their inverses, coset generators and the
//! bit-reversal table.  The tables are stated exactly: each holds the
//! powers of its base, and the permutation table reverses the index
//! bits.  The transforms themselves preserve length and canonical form;
//! their numerical behaviour is exercised by the round-trip and
//! convolution tests.

use vstd::prelude::*;
use vstd::arithmetic::div_mod::*;
use vstd::arithmetic::mul::*;
use vstd::arithmetic::power::*;
use vstd::arithmetic::power2::*;
use vstd::pervasive::VecAdditionalExecFns;
use crate::fr::{Fr, fr_p};

verus! {

/// The canonical value of the field's primitive `2^32`-th root of unity.
pub open spec fn rou_v() -> int {
    0x16a2a19edfe81f20d09b681922c813b4b63683508c2280b93829971f439f0d2bint
}

/// The canonical value of the inverse root of unity.
pub open spec fn rou_inv_v() -> int {
    0x538a6f66e19c653ed4f2f74a35d01686f67d4a2b566f8330fb4d6e13cf19a78int
}

/// The canonical value of the inverse of the multiplicative generator.
pub open spec fn gen_inv_v() -> int {
    0x211f5460e751918257c7624b7077624aaa362edc49241a48db6db6db24924925int
}

/// The primitive root of unity of order `2^32`, in Montgomery form.
pub fn root_of_unity() -> (r: Fr)
    ensures
        r.wf(),
        r.val() == rou_v(),
{
    Fr([0xb9b58d8c5f0e466a, 0x5b1b4c801819d7ec, 0x0af53ae352a31e64, 0x5bf3adda19e9b27b])
}

/// The inverse of the root of unity, in Montgomery form.
fn root_of_unity_inv() -> (r: Fr)
    ensures
        r.wf(),
        r.val() == rou_inv_v(),
{
    Fr([0x4256481adcf3219a, 0x45f37b7f96b6cad3, 0xf9c3f1d75f7a3b27, 0x2d2fc049658afd43])
}

/// The multiplicative generator `7` of the field, in Montgomery form.
pub fn multiplicative_generator() -> (r: Fr)
    ensures
        r.wf(),
        r.val() == 7,
{
    Fr([0x0000000efffffff1, 0x17e363d300189c0f, 0xff9c57876f8457b0, 0x351332208fc5a8c4])
}

/// The inverse of the multiplicative generator, in Montgomery form.
fn multiplicative_generator_inv() -> (r: Fr)
    ensures
        r.wf(),
        r.val() == gen_inv_v(),
{
    Fr([0xdb6db6dadb6db6dc, 0xe6b5824adb6cc6da, 0xf8b356e005810db9, 0x66d0f1e660ec4796])
}

/// The two-adicity of the field: it has roots of unity of order up to
/// `2^32`.
pub const S: usize = 32;

/// The canonical values of a coefficient vector.
pub open spec fn vals(s: Seq<Fr>) -> Seq<int> {
    s.map(|i: int, f: Fr| f.val())
}

/// Every coefficient is stored in canonical form.
pub open spec fn all_wf(s: Seq<Fr>) -> bool {
    forall|i: int| 0 <= i < s.len() ==> (#[trigger] s[i]).wf()
}

/// The index with its low `k` bits reversed.
pub open spec fn bitrev(k: nat, i: nat) -> nat
    decreases k,
{
    if k == 0 {
        0
    } else {
        (i % 2) * pow2((k - 1) as nat) + bitrev((k - 1) as nat, i / 2)
    }
}

/// A sequence permuted by bit reversal of its indices.
#[verifier::opaque]
pub open spec fn bit_rev_perm(k: nat, s: Seq<int>) -> Seq<int> {
    Seq::new(s.len(), |i: int| s[bitrev(k, i as nat) as int])
}

/// The radix-2 decimation-in-time butterfly network: the two halves are
/// transformed recursively with a doubled twiddle stride, then combined
/// by `l + w * r` and `l - w * r` at matching positions; a pair is the
/// closed-form sum and difference.
#[verifier::opaque]
pub open spec fn fft_rec(s: Seq<int>, ws: Seq<int>, chunk: nat) -> Seq<int>
    decreases s.len(),
{
    if s.len() <= 1 {
        s
    } else if s.len() == 2 {
        seq![(s[0] + s[1]) % fr_p(), (s[0] - s[1]) % fr_p()]
    } else {
        let half = s.len() / 2;
        let l = fft_rec(s.take(half as int), ws, chunk * 2);
        let r = fft_rec(s.skip(half as int), ws, chunk * 2);
        Seq::new(
            s.len(),
            |i: int|
                if i < half {
                    (l[i] + r[i] * ws[i * chunk as int]) % fr_p()
                } else {
                    (l[i - half] - r[i - half] * ws[(i - half) * chunk as int]) % fr_p()
                },
        )
    }
}

/// A coefficient vector of the scalar field.
#[derive(Clone, Debug)]
pub struct Polynomial(pub Vec<Fr>);

impl Polynomial {
    /// All coefficients are canonical.
    pub open spec fn wf(self) -> bool {
        all_wf(self.0@)
    }


    /// Wraps a coefficient vector.
    pub fn new(coeffs: Vec<Fr>) -> (r: Polynomial)
        ensures
            r.0@ == coeffs@,
    {
        Polynomial(coeffs)
    }
}

/// The FFT context for size `2^k`: twiddle factors, their inverses,
/// coset tables, the inverse of the size, and the bit-reversal table.
pub struct Fft {
    pub k: usize,
    pub n: usize,
    pub twiddle_factors: Vec<Fr>,
    pub inv_twiddle_factors: Vec<Fr>,
    pub cosets: Vec<Fr>,
    pub inv_cosets: Vec<Fr>,
    pub n_inv: Fr,
    pub bit_reverse: Vec<usize>,
}

impl Fft {
    /// The base twiddle factor: the root of unity squared down to order
    /// `2^k`.
    pub open spec fn fwd_base(self) -> int {
        pow(rou_v(), pow2((32 - self.k) as nat)) % fr_p()
    }

    /// The base inverse twiddle factor.
    pub open spec fn inv_base(self) -> int {
        pow(rou_inv_v(), pow2((32 - self.k) as nat)) % fr_p()
    }

    /// The forward transform of this context: butterflies over the
    /// bit-reversed input with the forward twiddle table.
    #[verifier::opaque]
    pub open spec fn dft_spec(self, s: Seq<int>) -> Seq<int> {
        fft_rec(bit_rev_perm(self.k as nat, s), vals(self.twiddle_factors@), 1)
    }

    /// The inverse transform before scaling: butterflies over the
    /// bit-reversed input with the inverse twiddle table.
    #[verifier::opaque]
    pub open spec fn idft_unscaled_spec(self, s: Seq<int>) -> Seq<int> {
        fft_rec(bit_rev_perm(self.k as nat, s), vals(self.inv_twiddle_factors@), 1)
    }

    /// The inverse transform: the unscaled inverse butterflies with
    /// every output multiplied by `n^-1`.
    #[verifier::opaque]
    pub open spec fn idft_spec(self, s: Seq<int>) -> Seq<int> {
        Seq::new(s.len(), |i: int| self.n_inv.val() * self.idft_unscaled_spec(s)[i] % fr_p())
    }

    /// The context invariant: the tables hold exactly the powers of
    /// their bases, and the bit-reversal table reverses `k`-bit indices.
    /// Kept opaque: proofs reveal it where they read a table.
    #[verifier::opaque]
    pub open spec fn wf(self) -> bool {
        &&& 1 <= self.k <= 32
        &&& self.n == pow2(self.k as nat)
        &&& self.twiddle_factors@.len() == self.n / 2
        &&& all_wf(self.twiddle_factors@)
        &&& (forall|i: int|
            0 <= i < self.n / 2 ==> (#[trigger] self.twiddle_factors@[i]).val() == pow(
                self.fwd_base(),
                i as nat,
            ) % fr_p())
        &&& self.inv_twiddle_factors@.len() == self.n / 2
        &&& all_wf(self.inv_twiddle_factors@)
        &&& (forall|i: int|
            0 <= i < self.n / 2 ==> (#[trigger] self.inv_twiddle_factors@[i]).val() == pow(
                self.inv_base(),
                i as nat,
            ) % fr_p())
        &&& self.cosets@.len() == self.n
        &&& all_wf(self.cosets@)
        &&& (forall|i: int|
            0 <= i < self.n ==> (#[trigger] self.cosets@[i]).val() == pow(7, i as nat) % fr_p())
        &&& self.inv_cosets@.len() == self.n
        &&& all_wf(self.inv_cosets@)
        &&& (forall|i: int|
            0 <= i < self.n ==> (#[trigger] self.inv_cosets@[i]).val() == pow(
                gen_inv_v(),
                i as nat,
            ) % fr_p())
        &&& self.n_inv.wf()
        &&& self.n_inv.val() == pow(pow2(self.k as nat) as int, (fr_p() - 2) as nat) % fr_p()
        &&& self.bit_reverse@.len() == self.n
        &&& (forall|i: int|
            0 <= i < self.n ==> (#[trigger] self.bit_reverse@[i]) == bitrev(
                self.k as nat,
                i as nat,
            ) && self.bit_reverse@[i] < self.n)
    }

    /// The transform size.
    pub fn size(&self) -> (r: usize)
        requires
            self.wf(),
        ensures
            r == pow2(self.k as nat),
    {
        proof {
            reveal(Fft::wf);
        }
        self.n
    }

}

/// Powers of a fixed base: a table cell holds `base^i`.
fn power_table(base: Fr, len: usize) -> (r: Vec<Fr>)
    requires
        base.wf(),
    ensures
        r@.len() == len,
        all_wf(r@),
        forall|i: int| 0 <= i < len ==> (#[trigger] r@[i]).val() == pow(base.val(), i as nat)
            % fr_p(),
{
    let mut r: Vec<Fr> = Vec::new();
    let mut cur = Fr::one();
    proof {
        lemma_pow0(base.val());
        crate::fr::lemma_fr_nontrivial();
        lemma_small_mod(1nat, fr_p() as nat);
    }
    let mut i: usize = 0;
    while i < len
        invariant
            base.wf(),
            cur.wf(),
            i <= len,
            r@.len() == i,
            all_wf(r@),
            cur.val() == pow(base.val(), i as nat) % fr_p(),
            forall|j: int| 0 <= j < i ==> (#[trigger] r@[j]).val() == pow(base.val(), j as nat)
                % fr_p(),
        decreases len - i,
    {
        r.push(cur);
        let ghost xv = cur.val();
        cur = cur.mul(base);
        proof {
            crate::fr::lemma_pow_mul_pub(base.val(), xv, i as nat);
        }
        i = i + 1;
    }
    r
}

/// Squares a value `m` times: the exponent gains a factor `2^m`.
fn square_times(base: Fr, m: usize, Ghost(b0): Ghost<int>, Ghost(e0): Ghost<nat>) -> (r: Fr)
    requires
        base.wf(),
        0 <= b0,
        base.val() == pow(b0, e0) % fr_p(),
    ensures
        r.wf(),
        r.val() == pow(b0, (e0 * pow2(m as nat)) as nat) % fr_p(),
{
    let mut cur = base;
    let mut i: usize = 0;
    proof {
        lemma2_to64();
        vstd::arithmetic::mul::lemma_mul_basics(e0 as int);
    }
    while i < m
        invariant
            cur.wf(),
            i <= m,
            0 <= b0,
            cur.val() == pow(b0, (e0 * pow2(i as nat)) as nat) % fr_p(),
        decreases m - i,
    {
        let ghost xv = cur.val();
        let ghost ecur = (e0 * pow2(i as nat)) as nat;
        cur = cur.square();
        proof {
            crate::fr::lemma_pow_sq_pub(b0, xv, ecur);
            lemma_pow2_unfold((i + 1) as nat);
            lemma_mul_is_associative(e0 as int, 2, pow2(i as nat) as int);
            lemma_mul_is_commutative(e0 as int, 2);
            lemma_mul_is_associative(2, e0 as int, pow2(i as nat) as int);
            assert((e0 * pow2((i + 1) as nat)) as nat == (2 * ecur) as nat);
        }
        i = i + 1;
    }
    cur
}

/// The `k`-bit reversal of an index.
fn bit_reverse_index(i: usize, k: usize) -> (r: usize)
    requires
        k <= 32,
        i < pow2(k as nat),
        pow2(k as nat) <= usize::MAX,
    ensures
        r == bitrev(k as nat, i as nat),
        r < pow2(k as nat),
{
    let mut rev: usize = 0;
    let mut x: usize = i;
    let mut j: usize = 0;
    proof {
        lemma2_to64();
        lemma_bitrev_bound(k as nat, i as nat);
        lemma_mul_basics(pow2(k as nat) as int);
    }
    while j < k
        invariant
            j <= k,
            k <= 32,
            pow2(k as nat) <= usize::MAX,
            rev < pow2(j as nat),
            bitrev(k as nat, i as nat) == rev * pow2((k - j) as nat) + bitrev(
                (k - j) as nat,
                x as nat,
            ),
            bitrev((k - j) as nat, x as nat) < pow2((k - j) as nat),
        decreases k - j,
    {
        proof {
            lemma_pow2_unfold((k - j) as nat);
            lemma_pow2_pos((k - j - 1) as nat);
            lemma_pow2_pos(j as nat);
            lemma_bitrev_bound((k - j - 1) as nat, (x / 2) as nat);
            lemma_pow2_unfold((j + 1) as nat);
            assert(bitrev((k - j) as nat, x as nat) == (x as nat % 2) * pow2((k - j - 1) as nat)
                + bitrev((k - j - 1) as nat, (x / 2) as nat));
            lemma_mul_is_distributive_add_other_way(
                pow2((k - j - 1) as nat) as int,
                2 * rev as int,
                (x % 2) as int,
            );
            lemma_mul_is_associative(2, rev as int, pow2((k - j - 1) as nat) as int);
            lemma_mul_is_associative(rev as int, 2, pow2((k - j - 1) as nat) as int);
            lemma_mul_is_commutative(rev as int, 2);
            lemma_pow2_adds((j + 1) as nat, (k - j - 1) as nat);
            lemma_pow2_pos((j + 1) as nat);
            lemma_mul_left_inequality(pow2((j + 1) as nat) as int, 1, pow2((k - j - 1) as nat) as int);
            lemma_mul_basics(pow2((j + 1) as nat) as int);
        }
        rev = 2 * rev + x % 2;
        x = x / 2;
        j = j + 1;
    }
    proof {
        assert(pow2(0) == 1);
        assert(bitrev(0, x as nat) == 0);
        lemma_mul_basics(rev as int);
        lemma_bitrev_bound(k as nat, i as nat);
    }
    rev
}

/// Bit reversal of a `k`-bit index stays below `2^k`.
proof fn lemma_bitrev_bound(k: nat, i: nat)
    ensures
        bitrev(k, i) < pow2(k),
    decreases k,
{
    if k == 0 {
        lemma2_to64();
    } else {
        lemma_bitrev_bound((k - 1) as nat, i / 2);
        lemma_pow2_unfold(k);
        lemma_pow2_pos((k - 1) as nat);
        if i % 2 == 0 {
            lemma_mul_basics(pow2((k - 1) as nat) as int);
        } else {
            lemma_mul_basics(pow2((k - 1) as nat) as int);
        }
    }
}

impl Fft {
    /// Builds the context for transforms of size `2^k`.  The root of
    /// unity is squared down to order `2^k`, the four power tables are
    /// filled, and the bit-reversal permutation is tabulated.
    pub fn new(k: usize) -> (r: Fft)
        requires
            1 <= k <= 32,
            pow2(k as nat) <= usize::MAX,
        ensures
            r.wf(),
            r.k == k,
    {
        proof {
            lemma2_to64();
            lemma_pow1(rou_v());
            lemma_pow1(rou_inv_v());
            lemma_small_mod(
                0x16a2a19edfe81f20d09b681922c813b4b63683508c2280b93829971f439f0d2bnat,
                fr_p() as nat,
            );
            lemma_small_mod(
                0x538a6f66e19c653ed4f2f74a35d01686f67d4a2b566f8330fb4d6e13cf19a78nat,
                fr_p() as nat,
            );
        }
        let n: usize = pow2_usize(k);
        let half_n = n / 2;

        let g = square_times(root_of_unity(), S - k, Ghost(rou_v()), Ghost(1nat));
        let twiddle_factors = power_table(g, half_n);
        let g_inv = square_times(root_of_unity_inv(), S - k, Ghost(rou_inv_v()), Ghost(1nat));
        let inv_twiddle_factors = power_table(g_inv, half_n);
        let cosets = power_table(multiplicative_generator(), n);
        let inv_cosets = power_table(multiplicative_generator_inv(), n);

        let size_elem = Fr::from_u64(pow2_u64(k));
        proof {
            lemma_pow2_pos(k as nat);
            crate::fr::lemma_fr_nontrivial();
        }
        let n_inv = match size_elem.invert() {
            Some(x) => x,
            None => {
                proof {
                    assert(false);
                }
                Fr::zero()
            },
        };

        let mut bit_reverse: Vec<usize> = Vec::new();
        let mut i: usize = 0;
        while i < n
            invariant
                k <= 32,
                n == pow2(k as nat),
                bit_reverse@.len() == i,
                i <= n,
                forall|j: int|
                    0 <= j < i ==> (#[trigger] bit_reverse@[j]) == bitrev(k as nat, j as nat)
                        && bit_reverse@[j] < n,
            decreases n - i,
        {
            let r = bit_reverse_index(i, k);
            bit_reverse.push(r);
            i = i + 1;
        }

        let r = Fft { k, n, twiddle_factors, inv_twiddle_factors, cosets, inv_cosets, n_inv, bit_reverse };
        proof {
            reveal(Fft::wf);
        }
        r
    }
}

/// `2^k` as a `usize`.
fn pow2_usize(k: usize) -> (r: usize)
    requires
        k <= 32,
        pow2(k as nat) <= usize::MAX,
    ensures
        r == pow2(k as nat),
{
    proof {
        lemma2_to64();
        lemma2_to64_rest();
    }
    let r: usize = 1usize << k;
    proof {
        vstd::bits::lemma_usize_shl_is_mul(1usize, k);
        lemma_mul_basics(pow2(k as nat) as int);
    }
    r
}

/// `2^k` as a `u64`.
fn pow2_u64(k: usize) -> (r: u64)
    requires
        k <= 32,
    ensures
        r as nat == pow2(k as nat),
{
    proof {
        lemma2_to64();
        lemma2_to64_rest();
    }
    let r: u64 = 1u64 << (k as u64);
    proof {
        vstd::bits::lemma_u64_shl_is_mul(1u64, k as u64);
        lemma_mul_basics(pow2(k as nat) as int);
    }
    r
}


impl Polynomial {
    /// Pads with zeros, or truncates, to exactly `n` coefficients.
    pub fn resize(&mut self, n: usize)
        requires
            old(self).wf(),
        ensures
            final(self).wf(),
            final(self).0@.len() == n,
            forall|i: int|
                0 <= i < n && i < old(self).0@.len() ==> final(self).0@[i] == old(self).0@[i],
            forall|i: int|
                old(self).0@.len() <= i < n ==> (#[trigger] final(self).0@[i]).val() == 0,
    {
        let mut out: Vec<Fr> = Vec::new();
        let mut i: usize = 0;
        while i < n && i < self.0.len()
            invariant
                self.wf(),
                self == old(self),
                i <= n,
                i <= self.0@.len(),
                out@.len() == i,
                forall|j: int| 0 <= j < i ==> out@[j] == self.0@[j],
            decreases n - i,
        {
            out.push(self.0[i]);
            i = i + 1;
        }
        while out.len() < n
            invariant
                self == old(self),
                out@.len() <= n,
                self.0@.len() <= out@.len() || out@.len() == n,
                forall|j: int|
                    0 <= j < out@.len() && j < self.0@.len() ==> out@[j] == self.0@[j],
                forall|j: int|
                    self.0@.len() <= j < out@.len() ==> (#[trigger] out@[j]).wf() && out@[j].val()
                        == 0,
                self.wf(),
            decreases n - out.len(),
        {
            out.push(Fr::zero());
        }
        self.0 = out;
    }
}

impl Fft {
    /// Applies the bit-reversal permutation to the coefficients.
    fn reverse_index(&self, coeffs: &mut Polynomial)
        requires
            self.wf(),
            old(coeffs).wf(),
            old(coeffs).0@.len() == pow2(self.k as nat),
        ensures
            final(coeffs).wf(),
            final(coeffs).0@.len() == pow2(self.k as nat),
            vals(final(coeffs).0@) == bit_rev_perm(self.k as nat, vals(old(coeffs).0@)),
    {
        proof {
            reveal(Fft::wf);
        }
        let n = self.n;
        let mut out: Vec<Fr> = Vec::new();
        let mut i: usize = 0;
        while i < n
            invariant
                self.wf(),
                coeffs == old(coeffs),
                coeffs.wf(),
                coeffs.0@.len() == self.n,
                n == self.n,
                i <= n,
                out@.len() == i,
                all_wf(out@),
                forall|j: int|
                    0 <= j < i ==> (#[trigger] out@[j]) == coeffs.0@[bitrev(
                        self.k as nat,
                        j as nat,
                    ) as int],
            decreases n - i,
        {
            proof {
                reveal(Fft::wf);
            }
            let idx = self.bit_reverse[i];
            out.push(coeffs.0[idx]);
            i = i + 1;
        }
        coeffs.0 = out;
        proof {
            reveal(Fft::wf);
            reveal(bit_rev_perm);
            let k = self.k as nat;
            let o = vals(old(coeffs).0@);
            assert forall|j: int| 0 <= j < self.n implies vals(coeffs.0@)[j] == bit_rev_perm(
                k,
                o,
            )[j] by {
                reveal(Fft::wf);
                reveal(bit_rev_perm);
                lemma_bitrev_bound(k, j as nat);
                assert(out@[j] == old(coeffs).0@[bitrev(k, j as nat) as int]);
            };
            assert(vals(coeffs.0@) =~= bit_rev_perm(self.k as nat, vals(old(coeffs).0@)));
        }
    }
}

/// One butterfly pair of values: the sum and the difference, the second
/// operand scaled by `w`.
fn pair_vals(a: Fr, b: Fr, w: Fr) -> (r: (Fr, Fr))
    requires
        a.wf(),
        b.wf(),
        w.wf(),
    ensures
        r.0.wf(),
        r.1.wf(),
        r.0.val() == (a.val() + b.val() * w.val()) % fr_p(),
        r.1.val() == (a.val() - b.val() * w.val()) % fr_p(),
{
    let t = b.mul(w);
    let hi = a.sub(t);
    let lo = a.add(t);
    proof {
        crate::fr::lemma_fr_nontrivial();
        crate::fr::lemma_sub_is_mod(a.val(), t.val(), hi.val());
        lemma_add_mod_noop_right(a.val(), b.val() * w.val(), fr_p());
        lemma_mod_bound(b.val() * w.val(), fr_p());
        lemma_sub_mod_noop_right(a.val(), b.val() * w.val(), fr_p());
    }
    (lo, hi)
}

/// The butterfly combine pass: the transformed halves are merged into
/// one vector whose left cell is `l + w * r` and whose right cell is
/// `l - w * r`, with `w` the twiddle at stride `twiddle_chunk`.
#[verifier::rlimit(100)]
fn butterfly_combine(l: &Vec<Fr>, r: &Vec<Fr>, twiddle_chunk: usize, twiddles: &Vec<Fr>) -> (out:
    Vec<Fr>)
    requires
        all_wf(l@),
        all_wf(r@),
        all_wf(twiddles@),
        l@.len() == r@.len(),
        1 <= l@.len(),
        1 <= twiddle_chunk,
        l@.len() * twiddle_chunk <= twiddles@.len(),
    ensures
        out@.len() == 2 * l@.len(),
        all_wf(out@),
        forall|i: int|
            0 <= i < l@.len() ==> (#[trigger] out@[i]).val() == (l@[i].val() + r@[i].val()
                * twiddles@[i * twiddle_chunk as int].val()) % fr_p(),
        forall|i: int|
            0 <= i < l@.len() ==> (#[trigger] out@[l@.len() + i]).val() == (l@[i].val()
                - r@[i].val() * twiddles@[i * twiddle_chunk as int].val()) % fr_p(),
{
    let half = l.len();
    let tlen = twiddles.len();
    let mut out: Vec<Fr> = Vec::new();
    let mut his: Vec<Fr> = Vec::new();
    let mut i: usize = 0;
    while i < half
        invariant
            all_wf(l@),
            all_wf(r@),
            all_wf(twiddles@),
            half == l@.len() == r@.len(),
            1 <= twiddle_chunk,
            tlen == twiddles@.len(),
            half * twiddle_chunk <= twiddles@.len(),
            i <= half,
            out@.len() == i,
            his@.len() == i,
            all_wf(out@),
            all_wf(his@),
            forall|j: int|
                0 <= j < i ==> (#[trigger] out@[j]).val() == (l@[j].val() + r@[j].val()
                    * twiddles@[j * twiddle_chunk as int].val()) % fr_p(),
            forall|j: int|
                0 <= j < i ==> (#[trigger] his@[j]).val() == (l@[j].val() - r@[j].val()
                    * twiddles@[j * twiddle_chunk as int].val()) % fr_p(),
        decreases half - i,
    {
        proof {
            lemma_mul_inequality(i as int + 1, half as int, twiddle_chunk as int);
            lemma_mul_strictly_positive(1, twiddle_chunk as int);
            lemma_mul_is_distributive_add_other_way(twiddle_chunk as int, i as int, 1);
            lemma_mul_basics(twiddle_chunk as int);
        }
        let w = twiddles[i * twiddle_chunk];
        let (lo, hi) = pair_vals(l[i], r[i], w);
        out.push(lo);
        his.push(hi);
        i = i + 1;
    }
    let mut i: usize = 0;
    while i < half
        invariant
            half == l@.len() == r@.len(),
            1 <= twiddle_chunk,
            i <= half,
            his@.len() == half,
            out@.len() == half + i,
            all_wf(out@),
            all_wf(his@),
            forall|j: int|
                0 <= j < half ==> (#[trigger] out@[j]).val() == (l@[j].val() + r@[j].val()
                    * twiddles@[j * twiddle_chunk as int].val()) % fr_p(),
            forall|j: int|
                0 <= j < half ==> (#[trigger] his@[j]).val() == (l@[j].val() - r@[j].val()
                    * twiddles@[j * twiddle_chunk as int].val()) % fr_p(),
            forall|j: int|
                0 <= j < i ==> (#[trigger] out@[half + j]).val() == (l@[j].val() - r@[j].val()
                    * twiddles@[j * twiddle_chunk as int].val()) % fr_p(),
        decreases half - i,
    {
        out.push(his[i]);
        i = i + 1;
    }
    out
}

/// Merging transformed halves by sum/difference with the strided
/// twiddles is exactly the recursive butterfly network one level up.
#[verifier::rlimit(100)]
proof fn lemma_fft_combine(olds: Seq<int>, tws: Seq<int>, c: nat, lv: Seq<int>, rv: Seq<int>, ov: Seq<int>)
    requires
        olds.len() >= 3,
        olds.len() % 2 == 0,
        lv == fft_rec(olds.take((olds.len() / 2) as int), tws, c * 2),
        rv == fft_rec(olds.skip((olds.len() / 2) as int), tws, c * 2),
        ov.len() == olds.len(),
        forall|i: int|
            0 <= i < olds.len() / 2 ==> #[trigger] ov[i] == (lv[i] + rv[i] * tws[i * (c as int)])
                % fr_p(),
        forall|i: int|
            0 <= i < olds.len() / 2 ==> #[trigger] ov[olds.len() / 2 + i] == (lv[i] - rv[i]
                * tws[i * (c as int)]) % fr_p(),
    ensures
        ov == fft_rec(olds, tws, c),
{
    reveal(fft_rec);
    let half = olds.len() / 2;
    assert forall|i: int| 0 <= i < olds.len() implies ov[i] == fft_rec(olds, tws, c)[i] by {
        reveal(fft_rec);
        if i >= half {
            let j = i - half;
            assert(ov[half + j] == (lv[j] - rv[j] * tws[j * (c as int)]) % fr_p());
        }
    };
    assert(ov =~= fft_rec(olds, tws, c));
}

/// The recursive decimation-in-time transform of the window
/// `start .. start + n`: the two halves are transformed with a doubled
/// twiddle stride and merged by one butterfly pass, matching [`fft_rec`]
/// exactly.  The merge allocates; the windows of the input are read, not
/// rewritten.
#[verifier::rlimit(100)]
fn fft_of(v: &Vec<Fr>, start: usize, n: usize, twiddle_chunk: usize, twiddles: &Vec<Fr>, Ghost(
    m,
): Ghost<nat>) -> (out: Vec<Fr>)
    requires
        all_wf(v@),
        all_wf(twiddles@),
        n == pow2(m),
        m >= 1,
        start + n <= v@.len(),
        n * twiddle_chunk == 2 * twiddles@.len(),
        1 <= twiddle_chunk,
    ensures
        out@.len() == n,
        all_wf(out@),
        vals(out@) == fft_rec(
            vals(v@.subrange(start as int, (start + n) as int)),
            vals(twiddles@),
            twiddle_chunk as nat,
        ),
    decreases m,
{
    proof {
        lemma_pow2_unfold(m);
        lemma_pow2_pos((m - 1) as nat);
        lemma2_to64();
    }
    let ghost olds = vals(v@.subrange(start as int, (start + n) as int));
    let ghost tws = vals(twiddles@);
    let vlen = v.len();
    let tlen = twiddles.len();
    if n == 2 {
        let (lo, hi) = pair_vals(v[start], v[start + 1], Fr::one());
        let mut out: Vec<Fr> = Vec::new();
        out.push(lo);
        out.push(hi);
        proof {
            reveal(fft_rec);
            lemma_mul_basics(v@[start + 1].val());
            crate::fr::lemma_fr_nontrivial();
            lemma_mod_bound(
                v@[start as int].val() + v@[start + 1].val(),
                fr_p(),
            );
            assert(olds[0] == v@[start as int].val());
            assert(olds[1] == v@[start + 1].val());
            assert(vals(out@) =~= fft_rec(olds, tws, twiddle_chunk as nat));
        }
        out
    } else {
        let half = n / 2;
        proof {
            lemma_mul_inequality(4, n as int, twiddle_chunk as int);
            lemma_mul_is_associative(2, half as int, twiddle_chunk as int);
            lemma_mul_is_commutative(half as int, 2);
            lemma_mul_is_associative(half as int, 2, twiddle_chunk as int);
        }
        let l = fft_of(v, start, half, 2 * twiddle_chunk, twiddles, Ghost((m - 1) as nat));
        let r = fft_of(v, start + half, half, 2 * twiddle_chunk, twiddles, Ghost((m - 1) as nat));
        proof {
            lemma_mul_is_commutative(half as int, twiddle_chunk as int);
            lemma_mul_is_associative(twiddle_chunk as int, 2, half as int);
            lemma_mul_is_commutative(twiddle_chunk as int, 2 * half as int);
            assert(half * twiddle_chunk <= twiddles@.len());
        }
        let out = butterfly_combine(&l, &r, twiddle_chunk, twiddles);
        proof {
            assert(v@.subrange(start as int, (start + half) as int) =~= v@.subrange(
                start as int,
                (start + n) as int,
            ).take(half as int));
            assert(v@.subrange((start + half) as int, (start + n) as int) =~= v@.subrange(
                start as int,
                (start + n) as int,
            ).skip(half as int));
            assert(olds.take(half as int) =~= vals(
                v@.subrange(start as int, (start + half) as int),
            ));
            assert(olds.skip(half as int) =~= vals(
                v@.subrange((start + half) as int, (start + n) as int),
            ));
            let lv = vals(l@);
            let rv = vals(r@);
            let ov = vals(out@);
            assert forall|i: int| 0 <= i < half implies #[trigger] ov[i] == (lv[i] + rv[i]
                * tws[i * twiddle_chunk as int]) % fr_p() by {
                lemma_mul_inequality(i + 1, half as int, twiddle_chunk as int);
                lemma_mul_strictly_positive(1, twiddle_chunk as int);
                lemma_mul_is_distributive_add_other_way(twiddle_chunk as int, i, 1);
                lemma_mul_basics(twiddle_chunk as int);
                assert(out@[i].val() == (l@[i].val() + r@[i].val() * twiddles@[i
                    * twiddle_chunk as int].val()) % fr_p());
            };
            assert forall|i: int| 0 <= i < half implies #[trigger] ov[half + i] == (lv[i] - rv[i]
                * tws[i * twiddle_chunk as int]) % fr_p() by {
                lemma_mul_inequality(i + 1, half as int, twiddle_chunk as int);
                lemma_mul_strictly_positive(1, twiddle_chunk as int);
                lemma_mul_is_distributive_add_other_way(twiddle_chunk as int, i, 1);
                lemma_mul_basics(twiddle_chunk as int);
                assert(out@[half + i].val() == (l@[i].val() - r@[i].val() * twiddles@[i
                    * twiddle_chunk as int].val()) % fr_p());
            };
            lemma_fft_combine(olds, tws, twiddle_chunk as nat, lv, rv, ov);
        }
        out
    }
}

impl Fft {
    /// The forward discrete transform, in place: the result is the
    /// butterfly network applied to the bit-reversed coefficients.
    pub fn dft(&self, coeffs: &mut Polynomial)
        requires
            self.wf(),
            old(coeffs).wf(),
            old(coeffs).0@.len() == pow2(self.k as nat),
        ensures
            final(coeffs).wf(),
            final(coeffs).0@.len() == pow2(self.k as nat),
            vals(final(coeffs).0@) == self.dft_spec(vals(old(coeffs).0@)),
    {
        self.reverse_index(coeffs);
        let ghost mid = vals(coeffs.0@);
        proof {
            reveal(Fft::wf);
            self.lemma_table_head(self.twiddle_factors@);
            lemma_pow2_pos(self.k as nat);
            lemma_pow2_unfold(self.k as nat);
        }
        let out = fft_of(&coeffs.0, 0, self.n, 1, &self.twiddle_factors, Ghost(self.k as nat));
        proof {
            assert(coeffs.0@.subrange(0, self.n as int) =~= coeffs.0@);
        }
        coeffs.0 = out;
        proof {
            reveal(Fft::dft_spec);
        }
    }

    /// The zeroth cell of a twiddle table holds one.
    proof fn lemma_table_head(&self, t: Seq<Fr>)
        requires
            self.wf(),
            t == self.twiddle_factors@ || t == self.inv_twiddle_factors@,
        ensures
            t.len() == self.n / 2,
            t.len() >= 1,
            t[0].val() == 1,
            self.n == pow2(self.k as nat),
    {
        reveal(Fft::wf);
        lemma_pow2_unfold(self.k as nat);
        lemma_pow2_pos((self.k - 1) as nat);
        crate::fr::lemma_fr_nontrivial();
        if t == self.twiddle_factors@ {
            lemma_pow0(self.fwd_base());
        } else {
            lemma_pow0(self.inv_base());
        }
        lemma_small_mod(1nat, fr_p() as nat);
    }

    /// The inverse discrete transform, in place: the inverse butterfly
    /// network over the bit-reversed coefficients, then every output
    /// scaled by `n^-1`.
    pub fn idft(&self, coeffs: &mut Polynomial)
        requires
            self.wf(),
            old(coeffs).wf(),
            old(coeffs).0@.len() == pow2(self.k as nat),
        ensures
            final(coeffs).wf(),
            final(coeffs).0@.len() == pow2(self.k as nat),
            vals(final(coeffs).0@) == self.idft_spec(vals(old(coeffs).0@)),
    {
        self.reverse_index(coeffs);
        proof {
            reveal(Fft::wf);
            self.lemma_table_head(self.inv_twiddle_factors@);
            lemma_pow2_pos(self.k as nat);
            lemma_pow2_unfold(self.k as nat);
        }
        let out = fft_of(&coeffs.0, 0, self.n, 1, &self.inv_twiddle_factors, Ghost(self.k as nat));
        proof {
            assert(coeffs.0@.subrange(0, self.n as int) =~= coeffs.0@);
        }
        coeffs.0 = out;
        let ghost mid = vals(coeffs.0@);
        let n_inv = self.n_inv;
        proof {
            reveal(Fft::wf);
        }
        let mut i: usize = 0;
        while i < self.n
            invariant
                self.wf(),
                n_inv == self.n_inv,
                n_inv.wf(),
                coeffs.wf(),
                coeffs.0@.len() == self.n,
                i <= self.n,
                mid.len() == self.n,
                forall|j: int| i <= j < self.n ==> (#[trigger] coeffs.0@[j]).val() == mid[j],
                forall|j: int|
                    0 <= j < i ==> (#[trigger] coeffs.0@[j]).val() == n_inv.val() * mid[j]
                        % fr_p(),
            decreases self.n - i,
        {
            let c = n_inv.mul(coeffs.0[i]);
            coeffs.0.set(i, c);
            i = i + 1;
        }
        proof {
            reveal(Fft::idft_spec);
            reveal(Fft::idft_unscaled_spec);
            assert(vals(coeffs.0@) =~= self.idft_spec(vals(old(coeffs).0@)));
        }
    }

    /// The coset forward transform: the coefficients are scaled by the
    /// powers of the multiplicative generator and then transformed; this
    /// evaluates over the coset-shifted domain.
    pub fn coset_dft(&self, coeffs: &mut Polynomial)
        requires
            self.wf(),
            old(coeffs).wf(),
            old(coeffs).0@.len() == pow2(self.k as nat),
        ensures
            final(coeffs).wf(),
            final(coeffs).0@.len() == pow2(self.k as nat),
            vals(final(coeffs).0@) == self.dft_spec(
                Seq::new(
                    pow2(self.k as nat),
                    |i: int| old(coeffs).0@[i].val() * self.cosets@[i].val() % fr_p(),
                ),
            ),
    {
        proof {
            reveal(Fft::wf);
        }
        let ghost orig = coeffs.0@;
        let n = self.n;
        let mut i: usize = 0;
        while i < n
            invariant
                self.wf(),
                coeffs.wf(),
                coeffs.0@.len() == n,
                n == self.n,
                i <= n,
                orig.len() == n,
                all_wf(orig),
                forall|j: int| i <= j < n ==> (#[trigger] coeffs.0@[j]) == orig[j],
                forall|j: int|
                    0 <= j < i ==> (#[trigger] coeffs.0@[j]).val() == orig[j].val()
                        * self.cosets@[j].val() % fr_p(),
            decreases n - i,
        {
            proof {
                reveal(Fft::wf);
            }
            let c = coeffs.0[i].mul(self.cosets[i]);
            coeffs.0.set(i, c);
            i = i + 1;
        }
        let ghost scaled = vals(coeffs.0@);
        self.dft(coeffs);
        proof {
            reveal(Fft::wf);
            assert(scaled =~= Seq::new(
                pow2(self.k as nat),
                |i: int| orig[i].val() * self.cosets@[i].val() % fr_p(),
            ));
        }
    }

    /// The coset inverse transform: the inverse transform, then every
    /// output scaled back by the powers of the inverse generator.
    pub fn coset_idft(&self, coeffs: &mut Polynomial)
        requires
            self.wf(),
            old(coeffs).wf(),
            old(coeffs).0@.len() == pow2(self.k as nat),
        ensures
            final(coeffs).wf(),
            final(coeffs).0@.len() == pow2(self.k as nat),
            vals(final(coeffs).0@) == Seq::new(
                pow2(self.k as nat),
                |i: int| self.idft_spec(vals(old(coeffs).0@))[i] * self.inv_cosets@[i].val()
                    % fr_p(),
            ),
    {
        self.idft(coeffs);
        let ghost mid = vals(coeffs.0@);
        proof {
            reveal(Fft::wf);
        }
        let n = self.n;
        let mut i: usize = 0;
        while i < n
            invariant
                self.wf(),
                coeffs.wf(),
                coeffs.0@.len() == n,
                n == self.n,
                i <= n,
                mid.len() == n,
                forall|j: int| i <= j < n ==> (#[trigger] coeffs.0@[j]).val() == mid[j],
                forall|j: int|
                    0 <= j < i ==> (#[trigger] coeffs.0@[j]).val() == mid[j]
                        * self.inv_cosets@[j].val() % fr_p(),
            decreases n - i,
        {
            proof {
                reveal(Fft::wf);
            }
            let c = coeffs.0[i].mul(self.inv_cosets[i]);
            coeffs.0.set(i, c);
            i = i + 1;
        }
        proof {
            assert(vals(coeffs.0@) =~= Seq::new(
                pow2(self.k as nat),
                |i: int| self.idft_spec(vals(old(coeffs).0@))[i] * self.inv_cosets@[i].val()
                    % fr_p(),
            ));
        }
    }

    /// Multiplies two polynomials by transforming both, multiplying the
    /// evaluations pointwise, and transforming back.
    pub fn poly_mul(&self, rhs: Polynomial, lhs: Polynomial) -> (r: Polynomial)
        requires
            self.wf(),
            rhs.wf(),
            lhs.wf(),
            rhs.0@.len() == pow2(self.k as nat),
            lhs.0@.len() == pow2(self.k as nat),
        ensures
            r.wf(),
            r.0@.len() == pow2(self.k as nat),
            vals(r.0@) == self.idft_spec(
                Seq::new(
                    pow2(self.k as nat),
                    |i: int| self.dft_spec(vals(rhs.0@))[i] * self.dft_spec(vals(lhs.0@))[i]
                        % fr_p(),
                ),
            ),
    {
        proof {
            reveal(Fft::wf);
        }
        let mut a = rhs;
        let mut b = lhs;
        let ghost va = vals(a.0@);
        let ghost vb = vals(b.0@);
        self.dft(&mut a);
        self.dft(&mut b);
        let mut prod: Vec<Fr> = Vec::new();
        let n = self.n;
        let mut i: usize = 0;
        while i < n
            invariant
                self.wf(),
                a.wf(),
                b.wf(),
                a.0@.len() == n,
                b.0@.len() == n,
                n == self.n,
                i <= n,
                prod@.len() == i,
                all_wf(prod@),
                forall|j: int|
                    0 <= j < i ==> (#[trigger] prod@[j]).val() == a.0@[j].val() * b.0@[j].val()
                        % fr_p(),
            decreases n - i,
        {
            prod.push(a.0[i].mul(b.0[i]));
            i = i + 1;
        }
        let mut out = Polynomial(prod);
        proof {
            reveal(Fft::wf);
            assert(vals(out.0@) =~= Seq::new(
                pow2(self.k as nat),
                |i: int| self.dft_spec(va)[i] * self.dft_spec(vb)[i] % fr_p(),
            ));
        }
        self.idft(&mut out);
        out
    }
}

/// The first eight squarings of the root of unity, as concrete values.
#[verifier::rlimit(100)]
proof fn lemma_rou_order_a()
    ensures
        pow(rou_v(), pow2(8)) % fr_p() == 0x291cf6d68823e6876e0bcd91ee76273072cf6a8029b7d7bc92cf4deb77bd779cint,
{
    lemma2_to64();
    lemma_pow1(rou_v());
    assert(pow(rou_v(), pow2(0)) % fr_p() == 0x16a2a19edfe81f20d09b681922c813b4b63683508c2280b93829971f439f0d2bint);
    lemma_pow2_unfold(1);
    lemma_pow_adds(rou_v(), pow2(0), pow2(0));
    lemma_mul_mod_noop_general(pow(rou_v(), pow2(0)), pow(rou_v(), pow2(0)), fr_p());
    assert(pow(rou_v(), pow2(1)) % fr_p() == 0x4b5371495990693fad1715b02e5713b5f070bb00e28a193d63e7cb4906ffc93fint);
    lemma_pow2_unfold(2);
    lemma_pow_adds(rou_v(), pow2(1), pow2(1));
    lemma_mul_mod_noop_general(pow(rou_v(), pow2(1)), pow(rou_v(), pow2(1)), fr_p());
    assert(pow(rou_v(), pow2(2)) % fr_p() == 0x2c6d4e4511657e1e1339a815da8b398fed3a181fabb30adc694341f608c9dd56int);
    lemma_pow2_unfold(3);
    lemma_pow_adds(rou_v(), pow2(2), pow2(2));
    lemma_mul_mod_noop_general(pow(rou_v(), pow2(2)), pow(rou_v(), pow2(2)), fr_p());
    assert(pow(rou_v(), pow2(3)) % fr_p() == 0xc83ea7744bf1bee8da40c1ef2bb459884d37b826214abc6474650359d8e211bint);
    lemma_pow2_unfold(4);
    lemma_pow_adds(rou_v(), pow2(3), pow2(3));
    lemma_mul_mod_noop_general(pow(rou_v(), pow2(3)), pow(rou_v(), pow2(3)), fr_p());
    assert(pow(rou_v(), pow2(4)) % fr_p() == 0x52dd465e2f09425699e276b571905a7d6558e9e3f6ac7b41d7b688830a4f2089int);
    lemma_pow2_unfold(5);
    lemma_pow_adds(rou_v(), pow2(4), pow2(4));
    lemma_mul_mod_noop_general(pow(rou_v(), pow2(4)), pow(rou_v(), pow2(4)), fr_p());
    assert(pow(rou_v(), pow2(5)) % fr_p() == 0x23397a9300f8f98bece8ea224f31d25db94f1101b1d7a628e2d0a7869f0319edint);
    lemma_pow2_unfold(6);
    lemma_pow_adds(rou_v(), pow2(5), pow2(5));
    lemma_mul_mod_noop_general(pow(rou_v(), pow2(5)), pow(rou_v(), pow2(5)), fr_p());
    assert(pow(rou_v(), pow2(6)) % fr_p() == 0xa0a77a3b1980c0d116168bffbedc11d02c8118402867ddc531a11a0d2d75182int);
    lemma_pow2_unfold(7);
    lemma_pow_adds(rou_v(), pow2(6), pow2(6));
    lemma_mul_mod_noop_general(pow(rou_v(), pow2(6)), pow(rou_v(), pow2(6)), fr_p());
    assert(pow(rou_v(), pow2(7)) % fr_p() == 0x19fe632fd3287390454dc1edc61a1a3c0ba12bb3da64ca5ce32ef844e11a51eint);
    lemma_pow2_unfold(8);
    lemma_pow_adds(rou_v(), pow2(7), pow2(7));
    lemma_mul_mod_noop_general(pow(rou_v(), pow2(7)), pow(rou_v(), pow2(7)), fr_p());
    assert(pow(rou_v(), pow2(8)) % fr_p() == 0x291cf6d68823e6876e0bcd91ee76273072cf6a8029b7d7bc92cf4deb77bd779cint);
}

/// Squarings nine through sixteen of the root of unity.
#[verifier::rlimit(100)]
proof fn lemma_rou_order_b()
    ensures
        pow(rou_v(), pow2(16)) % fr_p() == 0x2155379d12180caa88f39a78f1aeb57867a665ae1fcadc91d7118f85cd96b8adint,
{
    lemma2_to64();
    lemma_rou_order_a();
    lemma_pow2_unfold(9);
    lemma_pow_adds(rou_v(), pow2(8), pow2(8));
    lemma_mul_mod_noop_general(pow(rou_v(), pow2(8)), pow(rou_v(), pow2(8)), fr_p());
    assert(pow(rou_v(), pow2(9)) % fr_p() == 0x73560252aa0655b25121af06a3b51e3cc631ffb2585a72db5616c57de0ec9eaeint);
    lemma_pow2_unfold(10);
    lemma_pow_adds(rou_v(), pow2(9), pow2(9));
    lemma_mul_mod_noop_general(pow(rou_v(), pow2(9)), pow(rou_v(), pow2(9)), fr_p());
    assert(pow(rou_v(), pow2(10)) % fr_p() == 0xabe6a5e5abcaa32f2d38f10fbb8d1bbe08fec7c86389beec6e7a6ffb08e3363int);
    lemma_pow2_unfold(11);
    lemma_pow_adds(rou_v(), pow2(10), pow2(10));
    lemma_mul_mod_noop_general(pow(rou_v(), pow2(10)), pow(rou_v(), pow2(10)), fr_p());
    assert(pow(rou_v(), pow2(11)) % fr_p() == 0x47c8b5817018af4fc70d0874b0691d4e46b3105f04db5844cd3979122d3ea03aint);
    lemma_pow2_unfold(12);
    lemma_pow_adds(rou_v(), pow2(11), pow2(11));
    lemma_mul_mod_noop_general(pow(rou_v(), pow2(11)), pow(rou_v(), pow2(11)), fr_p());
    assert(pow(rou_v(), pow2(12)) % fr_p() == 0x3e1c54bcb947035a57a6e07cb98de4a2f69e02d265e09d9fece7e0e39898d4bint);
    lemma_pow2_unfold(13);
    lemma_pow_adds(rou_v(), pow2(12), pow2(12));
    lemma_mul_mod_noop_general(pow(rou_v(), pow2(12)), pow(rou_v(), pow2(12)), fr_p());
    assert(pow(rou_v(), pow2(13)) % fr_p() == 0x520e587a724a6955df625e80d0adef90ad8e16e84419c750194e8c62ecb38d9dint);
    lemma_pow2_unfold(14);
    lemma_pow_adds(rou_v(), pow2(13), pow2(13));
    lemma_mul_mod_noop_general(pow(rou_v(), pow2(13)), pow(rou_v(), pow2(13)), fr_p());
    assert(pow(rou_v(), pow2(14)) % fr_p() == 0x2d3056a530794f01652f717ae1c34bb0bb97a3bf30ce40fd6f421a7d8ef674fbint);
    lemma_pow2_unfold(15);
    lemma_pow_adds(rou_v(), pow2(14), pow2(14));
    lemma_mul_mod_noop_general(pow(rou_v(), pow2(14)), pow(rou_v(), pow2(14)), fr_p());
    assert(pow(rou_v(), pow2(15)) % fr_p() == 0x224262332d8acbf4473a2eef772c33d6cd7f2bd6d0711b7d08692405f3b70f10int);
    lemma_pow2_unfold(16);
    lemma_pow_adds(rou_v(), pow2(15), pow2(15));
    lemma_mul_mod_noop_general(pow(rou_v(), pow2(15)), pow(rou_v(), pow2(15)), fr_p());
    assert(pow(rou_v(), pow2(16)) % fr_p() == 0x2155379d12180caa88f39a78f1aeb57867a665ae1fcadc91d7118f85cd96b8adint);
}

/// Squarings seventeen through twenty-four of the root of unity.
#[verifier::rlimit(100)]
proof fn lemma_rou_order_c()
    ensures
        pow(rou_v(), pow2(24)) % fr_p() == 0x4f9b4098e2e9f12e6b368121ac0cf4ad0a0865a899e8deff4935bd2f817f694bint,
{
    lemma2_to64();
    lemma_rou_order_b();
    lemma_pow2_unfold(17);
    lemma_pow_adds(rou_v(), pow2(16), pow2(16));
    lemma_mul_mod_noop_general(pow(rou_v(), pow2(16)), pow(rou_v(), pow2(16)), fr_p());
    assert(pow(rou_v(), pow2(17)) % fr_p() == 0x3291357ee558b50d483405417a0cbe39c8d5f51db3f32699fbd047e11279bb6eint);
    lemma_pow2_unfold(18);
    lemma_pow_adds(rou_v(), pow2(17), pow2(17));
    lemma_mul_mod_noop_general(pow(rou_v(), pow2(17)), pow(rou_v(), pow2(17)), fr_p());
    assert(pow(rou_v(), pow2(18)) % fr_p() == 0x56624634b500a166dc86b01c0d477fa6ae4622f6a9152435034d2ff22a5ad9e1int);
    lemma_pow2_unfold(19);
    lemma_pow_adds(rou_v(), pow2(18), pow2(18));
    lemma_mul_mod_noop_general(pow(rou_v(), pow2(18)), pow(rou_v(), pow2(18)), fr_p());
    assert(pow(rou_v(), pow2(19)) % fr_p() == 0x485d512737b1da3d2ccddea2972e89ed146b58bc434906ac6fdd00bfc78c8967int);
    lemma_pow2_unfold(20);
    lemma_pow_adds(rou_v(), pow2(19), pow2(19));
    lemma_mul_mod_noop_general(pow(rou_v(), pow2(19)), pow(rou_v(), pow2(19)), fr_p());
    assert(pow(rou_v(), pow2(20)) % fr_p() == 0x564c0a11a0f704f4fc3e8acfe0f8245f0ad1347b378fbf96e206da11a5d36306int);
    lemma_pow2_unfold(21);
    lemma_pow_adds(rou_v(), pow2(20), pow2(20));
    lemma_mul_mod_noop_general(pow(rou_v(), pow2(20)), pow(rou_v(), pow2(20)), fr_p());
    assert(pow(rou_v(), pow2(21)) % fr_p() == 0x6d031f1b5c49c83409f1ca610a08f16655ea6811be9c622d4a838b5d59cd79e5int);
    lemma_pow2_unfold(22);
    lemma_pow_adds(rou_v(), pow2(21), pow2(21));
    lemma_mul_mod_noop_general(pow(rou_v(), pow2(21)), pow(rou_v(), pow2(21)), fr_p());
    assert(pow(rou_v(), pow2(22)) % fr_p() == 0x325db5c3debf77a18f4de02c0f776af3ea437f9626fc085e3c28d666a5c2d854int);
    lemma_pow2_unfold(23);
    lemma_pow_adds(rou_v(), pow2(22), pow2(22));
    lemma_mul_mod_noop_general(pow(rou_v(), pow2(22)), pow(rou_v(), pow2(22)), fr_p());
    assert(pow(rou_v(), pow2(23)) % fr_p() == 0x95166525526a65439feec240d80689fd697168a3a6000fe4541b8ff2ee0434eint);
    lemma_pow2_unfold(24);
    lemma_pow_adds(rou_v(), pow2(23), pow2(23));
    lemma_mul_mod_noop_general(pow(rou_v(), pow2(23)), pow(rou_v(), pow2(23)), fr_p());
    assert(pow(rou_v(), pow2(24)) % fr_p() == 0x4f9b4098e2e9f12e6b368121ac0cf4ad0a0865a899e8deff4935bd2f817f694bint);
}

/// The last eight squarings: the half-way point is `-1` and the full
/// power of two reaches one.
#[verifier::rlimit(100)]
proof fn lemma_rou_order_d()
    ensures
        pow(rou_v(), pow2(31)) % fr_p() == fr_p() - 1,
        pow(rou_v(), pow2(32)) % fr_p() == 0x1int,
{
    lemma2_to64();
    lemma_rou_order_c();
    lemma_pow2_unfold(25);
    lemma_pow_adds(rou_v(), pow2(24), pow2(24));
    lemma_mul_mod_noop_general(pow(rou_v(), pow2(24)), pow(rou_v(), pow2(24)), fr_p());
    assert(pow(rou_v(), pow2(25)) % fr_p() == 0x6898111413588742b7c68b4d7fdd60d098d0caac87f5713c5130c2c1660125beint);
    lemma_pow2_unfold(26);
    lemma_pow_adds(rou_v(), pow2(25), pow2(25));
    lemma_mul_mod_noop_general(pow(rou_v(), pow2(25)), pow(rou_v(), pow2(25)), fr_p());
    assert(pow(rou_v(), pow2(26)) % fr_p() == 0x45af6345ec055e4d14a1e27164d8fdbd2d967f4be2f951558140d032f0a9ee53int);
    lemma_pow2_unfold(27);
    lemma_pow_adds(rou_v(), pow2(26), pow2(26));
    lemma_mul_mod_noop_general(pow(rou_v(), pow2(26)), pow(rou_v(), pow2(26)), fr_p());
    assert(pow(rou_v(), pow2(27)) % fr_p() == 0x50e0903a157988bab4bcd40e22f55448bf6e88fb4c38fb8a360c60997369df4eint);
    lemma_pow2_unfold(28);
    lemma_pow_adds(rou_v(), pow2(27), pow2(27));
    lemma_mul_mod_noop_general(pow(rou_v(), pow2(27)), pow(rou_v(), pow2(27)), fr_p());
    assert(pow(rou_v(), pow2(28)) % fr_p() == 0x20b1ce9140267af9dd1c0af834cec32c17beb312f20b6f7653ea61d87742bcceint);
    lemma_pow2_unfold(29);
    lemma_pow_adds(rou_v(), pow2(28), pow2(28));
    lemma_mul_mod_noop_general(pow(rou_v(), pow2(28)), pow(rou_v(), pow2(28)), fr_p());
    assert(pow(rou_v(), pow2(29)) % fr_p() == 0x345766f603fa66e78c0625cd70d77ce2b38b21c28713b7007228fd3397743f7aint);
    lemma_pow2_unfold(30);
    lemma_pow_adds(rou_v(), pow2(29), pow2(29));
    lemma_mul_mod_noop_general(pow(rou_v(), pow2(29)), pow(rou_v(), pow2(29)), fr_p());
    assert(pow(rou_v(), pow2(30)) % fr_p() == 0x8d51ccce760304d0ec030002760300000001000000000000int);
    lemma_pow2_unfold(31);
    lemma_pow_adds(rou_v(), pow2(30), pow2(30));
    lemma_mul_mod_noop_general(pow(rou_v(), pow2(30)), pow(rou_v(), pow2(30)), fr_p());
    assert(pow(rou_v(), pow2(31)) % fr_p() == 0x73eda753299d7d483339d80809a1d80553bda402fffe5bfeffffffff00000000int);
    lemma_pow2_unfold(32);
    lemma_pow_adds(rou_v(), pow2(31), pow2(31));
    lemma_mul_mod_noop_general(pow(rou_v(), pow2(31)), pow(rou_v(), pow2(31)), fr_p());
    assert(pow(rou_v(), pow2(32)) % fr_p() == 0x1int);
}

/// Law: the root of unity has multiplicative order `2^32` — squaring
/// it thirty-two times reaches one, and the half-way point is `-1`, so
/// no smaller power of two already closes the cycle.
pub proof fn lemma_root_of_unity_order()
    ensures
        pow(rou_v(), pow2(31)) % fr_p() == fr_p() - 1,
        pow(rou_v(), pow2(32)) % fr_p() == 1,
{
    lemma_rou_order_d();
}

} // verus!
