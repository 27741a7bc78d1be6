//! The 256-bit scalar field of the pairing curve, in Montgomery form.
//!
//! An element is stored as `value * R mod p` with `R = 2^256`; the model
//! function [`Fr::val`] recovers the canonical value, and every operation
//! states its effect on it.  This field carries the FFT (it has a root of
//! unity of order `2^32`) and serves as the coordinate field of the
//! embedded Edwards curve.

use vstd::prelude::*;
use vstd::arithmetic::div_mod::*;
use vstd::arithmetic::mul::*;
use vstd::arithmetic::power::*;
use vstd::arithmetic::power2::*;
use crate::limb::l_val;

verus! {

/// The field modulus `p` as limbs.
pub const MODULUS: [u64; 4] = [
    0xffffffff00000001,
    0x53bda402fffe5bfe,
    0x3339d80809a1d805,
    0x73eda753299d7d48,
];

/// The negated inverse of `p` modulo `2^64`, used by Montgomery reduction.
pub const INV: u64 = 0xfffffffeffffffff;

/// `R = 2^256 mod p`: the Montgomery form of one.
const R: [u64; 4] = [
    0x00000001fffffffe,
    0x5884b7fa00034802,
    0x998c4fefecbc4ff5,
    0x1824b159acc5056f,
];

/// `R^2 = 2^512 mod p`, the factor that converts a plain value into
/// Montgomery form through one Montgomery product.
const R2: [u64; 4] = [
    0xc999e990f3f29c6d,
    0x2b6cedcb87925c23,
    0x05d314967254398f,
    0x0748d9d99f59ff11,
];

/// `R^3 = 2^768 mod p`.
const R3: [u64; 4] = [
    0xc62c1807439b73af,
    0x1b3e0d188cf06990,
    0x73d13c71c7b5f418,
    0x6e2a5bb9c8db33e9,
];

/// The field modulus as a number.
pub open spec fn fr_p() -> int {
    0x73eda753299d7d483339d80809a1d80553bda402fffe5bfeffffffff00000001int
}

/// The inverse of `R = 2^256` modulo `p`; multiplying a stored value by
/// it yields the canonical value.
pub open spec fn fr_rinv() -> int {
    0x1bbe869330009d577204078a4f77266aab6fca8f09dc705f13f75b69fe75c040int
}

/// `2^256`, the Montgomery radix.
pub open spec fn fr_r() -> int {
    0x10000000000000000000000000000000000000000000000000000000000000000int
}

/// The concrete facts about the field constants that the proofs lean on:
/// the limb tables spell the right numbers, `R * R^-1 == 1 (mod p)`, and
/// the Montgomery inverse word matches the modulus.
proof fn lemma_fr_consts()
    ensures
        l_val(MODULUS) == fr_p(),
        l_val(R) == fr_r() % fr_p(),
        l_val(R2) as int * fr_rinv() % fr_p() == fr_r() % fr_p(),
        (l_val(R2) as int * fr_rinv() % fr_p()) * fr_rinv() % fr_p() == 1,
        (l_val(R3) as int * fr_rinv() % fr_p()) * fr_rinv() % fr_p() == fr_r() % fr_p(),
        fr_r() * fr_rinv() % fr_p() == 1,
        (INV as nat * MODULUS[0] as nat + 1) % 0x10000000000000000 == 0,
        fr_p() < 0x8000000000000000000000000000000000000000000000000000000000000000int,
        fr_p() > 1,
{
}

/// A scalar-field element in Montgomery form; the stored limbs are
/// always below the modulus.
#[derive(Clone, Copy, Debug)]
pub struct Fr(pub [u64; 4]);

impl PartialEq for Fr {
    /// Equality of elements is equality of their stored limbs; with the
    /// canonical-form invariant this is equality of field values.
    fn eq(&self, other: &Fr) -> (r: bool) {
        self.0[0] == other.0[0] && self.0[1] == other.0[1] && self.0[2] == other.0[2] && self.0[3]
            == other.0[3]
    }
}

impl Eq for Fr {

}

impl vstd::std_specs::cmp::PartialEqSpecImpl for Fr {
    open spec fn obeys_eq_spec() -> bool {
        true
    }

    open spec fn eq_spec(&self, other: &Fr) -> bool {
        self.0[0] == other.0[0] && self.0[1] == other.0[1] && self.0[2] == other.0[2] && self.0[3]
            == other.0[3]
    }
}

impl Fr {
    /// The stored (Montgomery) value.
    pub open spec fn raw(self) -> nat {
        l_val(self.0)
    }

    /// The stored limbs are canonical: below the modulus.
    pub open spec fn wf(self) -> bool {
        self.raw() < fr_p()
    }

    /// The canonical value of the element.
    pub open spec fn val(self) -> int {
        self.raw() * fr_rinv() % fr_p()
    }
}

/// Splitting a sum before the Montgomery descale is the same as
/// splitting it after.
proof fn lemma_val_add(ra: int, rb: int)
    requires
        0 <= ra,
        0 <= rb,
    ensures
        ((ra + rb) % fr_p()) * fr_rinv() % fr_p() == (ra * fr_rinv() % fr_p() + rb * fr_rinv()
            % fr_p()) % fr_p(),
{
    let p = fr_p();
    let k = fr_rinv();
    lemma_mul_mod_noop_left(ra + rb, k, p);
    lemma_mul_is_distributive_add_other_way(k, ra, rb);
    assert((ra + rb) * k == ra * k + rb * k);
    lemma_add_mod_noop(ra * k, rb * k, p);
}

/// A Montgomery product descales to the product of the descaled factors.
proof fn lemma_val_mul(rr: int, ra: int, rb: int)
    requires
        0 <= rr,
        0 <= ra,
        0 <= rb,
        (rr * fr_r()) % fr_p() == (ra * rb) % fr_p(),
    ensures
        rr * fr_rinv() % fr_p() == (ra * fr_rinv() % fr_p()) * (rb * fr_rinv() % fr_p()) % fr_p(),
{
    let p = fr_p();
    let k = fr_rinv();
    let r = fr_r();
    // right-hand side folds to ra * rb * k * k
    lemma_mul_mod_noop_general(ra * k, rb * k, p);
    assert((ra * k % p) * (rb * k % p) % p == (ra * k) * (rb * k) % p);
    assert((ra * k) * (rb * k) == (ra * rb) * (k * k)) by (nonlinear_arith);
    // replace ra * rb by rr * r under the modulus
    lemma_mul_mod_noop_left(ra * rb, k * k, p);
    lemma_mul_mod_noop_left(rr * r, k * k, p);
    assert((ra * rb) * (k * k) % p == (rr * r) * (k * k) % p);
    // regroup and cancel r * k == 1 (mod p)
    assert((rr * r) * (k * k) == (rr * k) * (r * k)) by (nonlinear_arith);
    lemma_mul_mod_noop_right(rr * k, r * k, p);
    lemma_fr_consts();
    assert((rr * k) * (r * k) % p == (rr * k) * 1 % p);
    lemma_mul_basics(rr * k);
    lemma_mod_twice(rr * k, p);
}

/// A value below the modulus is recovered exactly from its Montgomery
/// form: from `rr * R == w (mod p)` follows `w * R^-1 mod p == rr`.
proof fn lemma_val_of_mont(rr: int, w: int)
    requires
        0 <= rr < fr_p(),
        0 <= w,
        (rr * fr_r()) % fr_p() == w % fr_p(),
    ensures
        w * fr_rinv() % fr_p() == rr,
{
    let p = fr_p();
    let k = fr_rinv();
    let r = fr_r();
    lemma_mul_mod_noop_left(w, k, p);
    lemma_mul_mod_noop_left(rr * r, k, p);
    assert(w * k % p == (rr * r) * k % p);
    assert((rr * r) * k == rr * (r * k)) by (nonlinear_arith);
    lemma_mul_mod_noop_right(rr, r * k, p);
    lemma_fr_consts();
    assert(rr * (r * k) % p == rr * 1 % p);
    lemma_mul_basics(rr);
    lemma_small_mod(rr as nat, p as nat);
}

/// Zero is the only element whose descaled value is zero.
proof fn lemma_val_zero(ra: int)
    requires
        0 <= ra < fr_p(),
    ensures
        (ra * fr_rinv() % fr_p() == 0) <==> ra == 0,
{
    let p = fr_p();
    let k = fr_rinv();
    let r = fr_r();
    if ra == 0 {
        lemma_mul_basics(k);
        lemma_small_mod(0nat, p as nat);
    }
    if ra * k % p == 0 {
        // multiply back by r: ra * (k * r) == ra (mod p)
        lemma_mul_mod_noop_left(ra * k, r, p);
        assert((ra * k % p) * r % p == (ra * k) * r % p);
        lemma_mul_basics(r);
        lemma_small_mod(0nat, p as nat);
        assert((ra * k) * r == ra * (k * r)) by (nonlinear_arith);
        lemma_mul_mod_noop_right(ra, k * r, p);
        lemma_fr_consts();
        lemma_mul_is_commutative(k, r);
        assert(ra * (k * r) % p == ra * 1 % p);
        lemma_mul_basics(ra);
        lemma_small_mod(ra as nat, p as nat);
    }
}

impl Fr {
    /// The additive identity.
    pub fn zero() -> (r: Fr)
        ensures
            r.wf(),
            r.val() == 0,
    {
        proof {
            lemma_fr_consts();
            lemma_val_zero(0);
        }
        Fr([0, 0, 0, 0])
    }

    /// The multiplicative identity, stored as `R mod p`.
    pub fn one() -> (r: Fr)
        ensures
            r.wf(),
            r.val() == 1,
    {
        proof {
            lemma_fr_consts();
            lemma_mod_bound(fr_r(), fr_p());
            lemma_mod_twice(fr_r(), fr_p());
            lemma_mul_mod_noop_left(fr_r(), fr_rinv(), fr_p());
        }
        Fr(R)
    }

    /// Whether this element is zero.
    pub fn is_zero(&self) -> (r: bool)
        requires
            self.wf(),
        ensures
            r <==> self.val() == 0,
    {
        proof {
            lemma_fr_consts();
            lemma_val_zero(self.raw() as int);
        }
        self.0[0] == 0 && self.0[1] == 0 && self.0[2] == 0 && self.0[3] == 0
    }

    /// Field addition: `(a + b) mod p`.
    pub fn add(self, rhs: Fr) -> (r: Fr)
        requires
            self.wf(),
            rhs.wf(),
        ensures
            r.wf(),
            r.val() == (self.val() + rhs.val()) % fr_p(),
    {
        proof {
            lemma_fr_consts();
            lemma_val_add(self.raw() as int, rhs.raw() as int);
        }
        Fr(crate::limb::add(self.0, rhs.0, MODULUS))
    }

    /// Field doubling: `2 * a mod p`.
    pub fn double(self) -> (r: Fr)
        requires
            self.wf(),
        ensures
            r.wf(),
            r.val() == (self.val() + self.val()) % fr_p(),
    {
        proof {
            lemma_fr_consts();
            lemma_val_add(self.raw() as int, self.raw() as int);
        }
        Fr(crate::limb::double(self.0, MODULUS))
    }

    /// Field subtraction, stated through the sum that reconstructs the
    /// minuend: `r + b == a (mod p)`.
    pub fn sub(self, rhs: Fr) -> (r: Fr)
        requires
            self.wf(),
            rhs.wf(),
        ensures
            r.wf(),
            (r.val() + rhs.val()) % fr_p() == self.val(),
    {
        proof {
            lemma_fr_consts();
        }
        let out = Fr(crate::limb::sub(self.0, rhs.0, MODULUS));
        proof {
            let p = fr_p();
            assert((out.raw() as int + rhs.raw() as int) % p == self.raw() as int % p) by {
                if self.raw() >= rhs.raw() {
                    lemma_small_mod(self.raw(), p as nat);
                } else {
                    lemma_mod_add_multiples_vanish(self.raw() as int, p);
                    lemma_small_mod(self.raw(), p as nat);
                }
            };
            lemma_val_add(out.raw() as int, rhs.raw() as int);
            lemma_mul_mod_noop_left(self.raw() as int, fr_rinv(), p);
            lemma_small_mod(self.raw(), p as nat);
        }
        out
    }

    /// Field negation, stated as the additive inverse: `r + a == 0 (mod p)`.
    pub fn neg(self) -> (r: Fr)
        requires
            self.wf(),
        ensures
            r.wf(),
            (r.val() + self.val()) % fr_p() == 0,
            self.val() == 0 ==> r.val() == 0,
    {
        proof {
            lemma_fr_consts();
        }
        let out = Fr(crate::limb::neg(self.0, MODULUS));
        proof {
            let p = fr_p();
            lemma_val_zero(self.raw() as int);
            lemma_val_zero(out.raw() as int);
            assert((out.raw() as int + self.raw() as int) % p == 0) by {
                if self.raw() == 0 {
                    lemma_small_mod(0nat, p as nat);
                } else {
                    lemma_mod_self_0(p);
                }
            };
            lemma_val_add(out.raw() as int, self.raw() as int);
            lemma_mul_basics(fr_rinv());
            lemma_small_mod(0nat, p as nat);
        }
        out
    }

    /// Field multiplication: `a * b mod p`.
    pub fn mul(self, rhs: Fr) -> (r: Fr)
        requires
            self.wf(),
            rhs.wf(),
        ensures
            r.wf(),
            r.val() == self.val() * rhs.val() % fr_p(),
    {
        proof {
            lemma_fr_consts();
        }
        let out = Fr(crate::limb::mul(self.0, rhs.0, MODULUS, INV));
        proof {
            lemma_val_mul(out.raw() as int, self.raw() as int, rhs.raw() as int);
        }
        out
    }

    /// Field squaring: `a * a mod p`.
    pub fn square(self) -> (r: Fr)
        requires
            self.wf(),
        ensures
            r.wf(),
            r.val() == self.val() * self.val() % fr_p(),
    {
        self.mul(self)
    }

    /// Maps a plain 256-bit value into the field, reducing modulo `p` and
    /// converting to Montgomery form.
    pub fn to_mont_form(v: [u64; 4]) -> (r: Fr)
        ensures
            r.wf(),
            r.val() == l_val(v) as int % fr_p(),
    {
        proof {
            lemma_fr_consts();
        }
        let out = Fr(crate::limb::mul(v, R2, MODULUS, INV));
        proof {
            let p = fr_p();
            let k = fr_rinv();
            let vv = l_val(v) as int;
            let rr = out.raw() as int;
            let r2 = l_val(R2) as int;
            lemma_val_mul(rr, vv, r2);
            lemma_mul_mod_noop_right(vv * k % p, r2 * k, p);
            lemma_fr_consts();
            // (v*k % p) * (R2*k % p) == (v*k % p) * (R % p): one descale of R2 is R
            lemma_mul_mod_noop_right(vv, fr_r(), p);
            assert((vv * k % p) * (r2 * k % p) % p == (vv * k % p) * (fr_r() % p) % p);
            lemma_mul_mod_noop_general(vv * k, fr_r(), p);
            assert((vv * k % p) * (fr_r() % p) % p == (vv * k) * fr_r() % p);
            assert((vv * k) * fr_r() == vv * (k * fr_r())) by (nonlinear_arith);
            lemma_mul_is_commutative(k, fr_r());
            lemma_mul_mod_noop_right(vv, fr_r() * k, p);
            assert(vv * (fr_r() * k) % p == vv * 1 % p);
            lemma_mul_basics(vv);
            lemma_mul_mod_noop_left(vv, k, p);
        }
        out
    }

    /// Embeds a machine word into the field.
    pub fn from_u64(v: u64) -> (r: Fr)
        ensures
            r.wf(),
            r.val() == v,
    {
        proof {
            lemma_fr_consts();
        }
        let out = Fr::to_mont_form([v, 0, 0, 0]);
        proof {
            lemma_small_mod(v as nat, fr_p() as nat);
        }
        out
    }

    /// Strips the Montgomery factor, returning the canonical value as
    /// plain limbs.
    pub fn montgomery_reduce(self) -> (r: [u64; 4])
        requires
            self.wf(),
        ensures
            l_val(r) == self.val(),
    {
        let wide = [self.0[0], self.0[1], self.0[2], self.0[3], 0, 0, 0, 0];
        proof {
            lemma_fr_consts();
            assert(crate::limb::w_val(wide) == self.raw());
            lemma_mul_left_inequality(fr_p(), 1, fr_r());
            lemma_mul_basics(fr_p());
        }
        let r = crate::limb::mont(wide, MODULUS, INV);
        proof {
            lemma_val_of_mont(l_val(r) as int, self.raw() as int);
            lemma_small_mod(self.raw(), fr_p() as nat);
        }
        r
    }
}


/// Limb values determine the limbs: base-`2^64` digits are unique.
proof fn lemma_l_val_unique(x: [u64; 4], y: [u64; 4])
    requires
        l_val(x) == l_val(y),
    ensures
        x[0] == y[0] && x[1] == y[1] && x[2] == y[2] && x[3] == y[3],
{
    let v = l_val(x) as int;
    lemma_fundamental_div_mod_converse(
        v,
        0x10000000000000000,
        x[1] as int + 0x10000000000000000 * (x[2] as int + 0x10000000000000000 * x[3] as int),
        x[0] as int,
    );
    lemma_fundamental_div_mod_converse(
        v,
        0x10000000000000000,
        y[1] as int + 0x10000000000000000 * (y[2] as int + 0x10000000000000000 * y[3] as int),
        y[0] as int,
    );
    let v1 = v / 0x10000000000000000;
    lemma_fundamental_div_mod_converse(
        v1,
        0x10000000000000000,
        x[2] as int + 0x10000000000000000 * x[3] as int,
        x[1] as int,
    );
    lemma_fundamental_div_mod_converse(
        v1,
        0x10000000000000000,
        y[2] as int + 0x10000000000000000 * y[3] as int,
        y[1] as int,
    );
    let v2 = v1 / 0x10000000000000000;
    lemma_fundamental_div_mod_converse(v2, 0x10000000000000000, x[3] as int, x[2] as int);
    lemma_fundamental_div_mod_converse(v2, 0x10000000000000000, y[3] as int, y[2] as int);
}

/// Well-formed elements with one canonical value store one limb array.
pub proof fn lemma_val_injective(a: Fr, b: Fr)
    requires
        a.wf(),
        b.wf(),
        a.val() == b.val(),
    ensures
        a.0[0] == b.0[0] && a.0[1] == b.0[1] && a.0[2] == b.0[2] && a.0[3] == b.0[3],
{
    let p = fr_p();
    let k = fr_rinv();
    let r = fr_r();
    let ra = a.raw() as int;
    let rb = b.raw() as int;
    lemma_fr_consts();
    lemma_mul_mod_noop_left(ra * k, r, p);
    lemma_mul_mod_noop_left(rb * k, r, p);
    assert((ra * k) * r % p == (rb * k) * r % p);
    assert((ra * k) * r == ra * (k * r)) by (nonlinear_arith);
    assert((rb * k) * r == rb * (k * r)) by (nonlinear_arith);
    lemma_mul_is_commutative(k, r);
    lemma_mul_mod_noop_right(ra, r * k, p);
    lemma_mul_mod_noop_right(rb, r * k, p);
    lemma_mul_basics(ra);
    lemma_mul_basics(rb);
    lemma_small_mod(a.raw(), p as nat);
    lemma_small_mod(b.raw(), p as nat);
    assert(ra == rb);
    lemma_l_val_unique(a.0, b.0);
}


/// The eight little-endian digits of one limb.
fn limb_digits(x: u64) -> (r: [u8; 8])
    ensures
        r@.len() == 8,
        crate::codec::le_val(r@) == x as nat,
{
    proof {
        vstd::arithmetic::power2::lemma2_to64();
        vstd::arithmetic::power2::lemma2_to64_rest();
    }
    let r = [
        crate::codec::word_digit(x, 0),
        crate::codec::word_digit(x, 1),
        crate::codec::word_digit(x, 2),
        crate::codec::word_digit(x, 3),
        crate::codec::word_digit(x, 4),
        crate::codec::word_digit(x, 5),
        crate::codec::word_digit(x, 6),
        crate::codec::word_digit(x, 7),
    ];
    proof {
        crate::codec::lemma_word_digits(x);
        lemma_div_basics(x as int);
        crate::codec::lemma_le_val_word(r@);
        assert(crate::codec::le_val(r@.skip(8)) == 0);
    }
    r
}

impl Fr {
    /// Canonical little-endian encoding: thirty-two bytes spelling the
    /// canonical value of the element.
    #[verifier::rlimit(100)]
    pub fn to_bytes(self) -> (r: [u8; 32])
        requires
            self.wf(),
        ensures
            r@.len() == 32,
            crate::codec::le_val(r@) == self.val(),
    {
        let t = self.montgomery_reduce();
        let b0 = limb_digits(t[0]);
        let b1 = limb_digits(t[1]);
        let b2 = limb_digits(t[2]);
        let b3 = limb_digits(t[3]);
        let b = [
            b0[0],
            b0[1],
            b0[2],
            b0[3],
            b0[4],
            b0[5],
            b0[6],
            b0[7],
            b1[0],
            b1[1],
            b1[2],
            b1[3],
            b1[4],
            b1[5],
            b1[6],
            b1[7],
            b2[0],
            b2[1],
            b2[2],
            b2[3],
            b2[4],
            b2[5],
            b2[6],
            b2[7],
            b3[0],
            b3[1],
            b3[2],
            b3[3],
            b3[4],
            b3[5],
            b3[6],
            b3[7],
        ];
        proof {
            crate::codec::lemma_le_val_word(b0@);
            crate::codec::lemma_le_val_word(b1@);
            crate::codec::lemma_le_val_word(b2@);
            crate::codec::lemma_le_val_word(b3@);
            assert(crate::codec::le_val(b0@.skip(8)) == 0);
            assert(crate::codec::le_val(b1@.skip(8)) == 0);
            assert(crate::codec::le_val(b2@.skip(8)) == 0);
            assert(crate::codec::le_val(b3@.skip(8)) == 0);
            crate::codec::lemma_le_val_word(b@);
            crate::codec::lemma_le_val_word(b@.skip(8));
            crate::codec::lemma_le_val_word(b@.skip(16));
            crate::codec::lemma_le_val_word(b@.skip(24));
            assert(b@.skip(8).skip(8) =~= b@.skip(16));
            assert(b@.skip(16).skip(8) =~= b@.skip(24));
            assert(b@.skip(24).skip(8) =~= b@.skip(32));
            assert(crate::codec::le_val(b@.skip(32)) == 0);
            assert(crate::codec::le_val(b@) == l_val(t));
        }
        b
    }

    /// Decodes a canonical little-endian byte string.  Succeeds exactly
    /// when the value read is below the modulus; a byte string spelling
    /// the modulus or more is rejected.
    pub fn from_bytes(bytes: [u8; 32]) -> (r: Option<Fr>)
        ensures
            r is Some <==> crate::codec::le_val(bytes@) < fr_p(),
            r matches Some(f) ==> f.wf() && f.val() == crate::codec::le_val(bytes@),
    {
        let l0 = crate::codec::word_from_digits(
            bytes[0], bytes[1], bytes[2], bytes[3], bytes[4], bytes[5], bytes[6], bytes[7],
        );
        let l1 = crate::codec::word_from_digits(
            bytes[8], bytes[9], bytes[10], bytes[11], bytes[12], bytes[13], bytes[14], bytes[15],
        );
        let l2 = crate::codec::word_from_digits(
            bytes[16], bytes[17], bytes[18], bytes[19], bytes[20], bytes[21], bytes[22], bytes[23],
        );
        let l3 = crate::codec::word_from_digits(
            bytes[24], bytes[25], bytes[26], bytes[27], bytes[28], bytes[29], bytes[30], bytes[31],
        );
        let l = [l0, l1, l2, l3];
        proof {
            crate::codec::lemma_le_val_word(bytes@);
            crate::codec::lemma_le_val_word(bytes@.skip(8));
            crate::codec::lemma_le_val_word(bytes@.skip(16));
            crate::codec::lemma_le_val_word(bytes@.skip(24));
            assert(bytes@.skip(8).skip(8) =~= bytes@.skip(16));
            assert(bytes@.skip(16).skip(8) =~= bytes@.skip(24));
            assert(bytes@.skip(24).skip(8) =~= bytes@.skip(32));
            assert(crate::codec::le_val(bytes@.skip(32)) == 0);
            assert(l_val(l) == crate::codec::le_val(bytes@));
            lemma_fr_consts();
        }
        if crate::limb::lt(l, MODULUS) {
            let out = Fr::to_mont_form(l);
            proof {
                lemma_small_mod(l_val(l), fr_p() as nat);
            }
            Some(out)
        } else {
            None
        }
    }
}

/// Law: encoding then decoding gives back the element.  A well-formed
/// element's encoding reads back below the modulus, so decoding
/// succeeds, and the decoded element stores the same limbs.
pub proof fn lemma_decode_of_encode(a: Fr, s: Seq<u8>, f: Fr)
    requires
        a.wf(),
        s.len() == 32,
        crate::codec::le_val(s) == a.val(),
        f.wf(),
        f.val() == crate::codec::le_val(s),
    ensures
        crate::codec::le_val(s) < fr_p(),
        f.0[0] == a.0[0] && f.0[1] == a.0[1] && f.0[2] == a.0[2] && f.0[3] == a.0[3],
{
    lemma_fr_consts();
    lemma_mod_bound(a.raw() as int * fr_rinv(), fr_p());
    lemma_val_injective(a, f);
}

/// Law: decoding a canonical byte string and encoding the result gives
/// back the same bytes.
pub proof fn lemma_encode_of_decode(b: Seq<u8>, f: Fr, s: Seq<u8>)
    requires
        b.len() == 32,
        crate::codec::le_val(b) < fr_p(),
        f.wf(),
        f.val() == crate::codec::le_val(b),
        s.len() == 32,
        crate::codec::le_val(s) == f.val(),
    ensures
        s =~= b,
{
    crate::codec::lemma_le_val_unique(s, b);
}


/// Squaring steps an exponent ladder: `x == v^e (mod p)` gives
/// `x * x == v^(2e) (mod p)`.
pub proof fn lemma_pow_sq_pub(v: int, x: int, e: nat)
    requires
        0 <= v,
        x == pow(v, e) % fr_p(),
    ensures
        (x * x) % fr_p() == pow(v, 2 * e) % fr_p(),
{
    lemma_fr_consts();
    lemma_mul_mod_noop_general(pow(v, e), pow(v, e), fr_p());
    lemma_pow_adds(v, e, e);
}

/// Multiplying by the base steps an exponent ladder by one.
pub proof fn lemma_pow_mul_pub(v: int, x: int, e: nat)
    requires
        0 <= v < fr_p(),
        x == pow(v, e) % fr_p(),
    ensures
        (x * v) % fr_p() == pow(v, e + 1) % fr_p(),
{
    lemma_fr_consts();
    lemma_mul_mod_noop_left(pow(v, e), v, fr_p());
    lemma_pow_adds(v, e, 1);
    lemma_pow1(v);
}

/// Reading an exponent one bit further down doubles the prefix and adds
/// the bit.
proof fn lemma_exp_step(x: nat, n: nat)
    ensures
        x / pow2(n) == 2 * (x / pow2((n + 1) as nat)) + x / pow2(n) % 2,
{
    crate::codec::lemma_div_div_pow2(x, n, 1);
    lemma2_to64();
    lemma_pow2_pos(n);
    lemma_fundamental_div_mod((x / pow2(n)) as int, 2);
}

impl Fr {
    /// Exponentiation by a 256-bit little-endian exponent, square and
    /// multiply from the top bit down.  Variable-time in the exponent.
    pub fn pow_vartime(&self, by: &[u64; 4]) -> (r: Fr)
        requires
            self.wf(),
        ensures
            r.wf(),
            r.val() == pow(self.val(), l_val(*by)) % fr_p(),
    {
        let ghost lv = l_val(*by);
        let ghost v = self.val();
        let mut res = Fr::one();
        proof {
            lemma_fr_consts();
            lemma2_to64();
            lemma_pow2_adds(64, 64);
            lemma_pow2_adds(128, 64);
            lemma_pow2_adds(192, 64);
            lemma_pow2_pos(256);
            lemma_basic_div(lv as int, pow2(256) as int);
            lemma_pow0(v);
            lemma_small_mod(1nat, fr_p() as nat);
        }
        let mut j: usize = 4;
        while j > 0
            invariant
                self.wf(),
                res.wf(),
                j <= 4,
                v == self.val(),
                lv == l_val(*by),
                res.val() == pow(v, lv / pow2((64 * j) as nat)) % fr_p(),
            decreases j,
        {
            j = j - 1;
            let mut i: usize = 64;
            while i > 0
                invariant
                    self.wf(),
                    res.wf(),
                    i <= 64,
                    j < 4,
                    v == self.val(),
                    lv == l_val(*by),
                    res.val() == pow(v, lv / pow2((64 * j + i) as nat)) % fr_p(),
                decreases i,
            {
                i = i - 1;
                let ghost e = lv / pow2((64 * j + i + 1) as nat);
                let ghost xv = res.val();
                res = res.square();
                proof {
                    lemma_pow_sq_pub(v, xv, e);
                }
                let ghost yv = res.val();
                if crate::codec::limb_bit(*by, j, i) {
                    res = res.mul(*self);
                    proof {
                        lemma_pow_mul_pub(v, yv, 2 * e);
                    }
                }
                proof {
                    lemma_exp_step(lv, (64 * j + i) as nat);
                }
            }
        }
        proof {
            lemma2_to64();
            lemma_div_basics(lv as int);
        }
        res
    }

    /// Multiplicative inverse: `None` exactly for zero, otherwise the
    /// power `p - 2` of the element, which by Fermat is the inverse in
    /// the prime field.
    pub fn invert(&self) -> (r: Option<Fr>)
        requires
            self.wf(),
        ensures
            r is None <==> self.val() == 0,
            r matches Some(f) ==> f.wf() && f.val() == pow(
                self.val(),
                (fr_p() - 2) as nat,
            ) % fr_p(),
    {
        let pm2: [u64; 4] = [
            0xfffffffeffffffff,
            0x53bda402fffe5bfe,
            0x3339d80809a1d805,
            0x73eda753299d7d48,
        ];
        proof {
            assert(l_val(pm2) == (fr_p() - 2) as nat);
        }
        if self.is_zero() {
            None
        } else {
            Some(self.pow_vartime(&pm2))
        }
    }

    /// Constant-time style selection: the mask, not a branch, picks
    /// `b` when `choice` holds and `a` otherwise.
    pub fn conditional_select(a: &Fr, b: &Fr, choice: bool) -> (r: Fr)
        ensures
            r == if choice {
                *b
            } else {
                *a
            },
    {
        let mask: u64 = (if choice {
            1u64
        } else {
            0u64
        }) * 0xffffffffffffffff;
        proof {
            lemma_select_word(a.0[0], b.0[0]);
            lemma_select_word(a.0[1], b.0[1]);
            lemma_select_word(a.0[2], b.0[2]);
            lemma_select_word(a.0[3], b.0[3]);
        }
        let r = Fr(
            [
                a.0[0] ^ (mask & (a.0[0] ^ b.0[0])),
                a.0[1] ^ (mask & (a.0[1] ^ b.0[1])),
                a.0[2] ^ (mask & (a.0[2] ^ b.0[2])),
                a.0[3] ^ (mask & (a.0[3] ^ b.0[3])),
            ],
        );
        proof {
            if choice {
                assert(r.0 =~= b.0);
            } else {
                assert(r.0 =~= a.0);
            }
        }
        r
    }

    /// Constant-time style equality: a fused mask comparison of the
    /// limbs, which under the canonical-form invariant decides equality
    /// of field values.
    pub fn ct_eq(&self, other: &Fr) -> (r: bool)
        requires
            self.wf(),
            other.wf(),
        ensures
            r <==> self.val() == other.val(),
    {
        proof {
            lemma_ct_eq_words(
                self.0[0],
                self.0[1],
                self.0[2],
                self.0[3],
                other.0[0],
                other.0[1],
                other.0[2],
                other.0[3],
            );
            if self.val() == other.val() {
                lemma_val_injective(*self, *other);
            }
        }
        (self.0[0] ^ other.0[0]) | (self.0[1] ^ other.0[1]) | (self.0[2] ^ other.0[2]) | (self.0[3]
            ^ other.0[3]) == 0
    }
}

/// Mask selection on one word: a zero mask keeps the first operand, a
/// full mask switches to the second.
proof fn lemma_select_word(x: u64, y: u64)
    by (bit_vector)
    ensures
        x ^ (0u64 & (x ^ y)) == x,
        x ^ (0xffffffffffffffffu64 & (x ^ y)) == y,
{
}

/// Fused equality of four words through xor and or.
proof fn lemma_ct_eq_words(a0: u64, a1: u64, a2: u64, a3: u64, b0: u64, b1: u64, b2: u64, b3: u64)
    by (bit_vector)
    ensures
        ((a0 ^ b0) | (a1 ^ b1) | (a2 ^ b2) | (a3 ^ b3) == 0) <==> (a0 == b0 && a1 == b1 && a2 == b2
            && a3 == b3),
{
}


/// Law: field addition is associative.  `Fr::add` returns the modular
/// sum of the canonical values, and summing three elements either way
/// round gives one value.
pub proof fn lemma_fr_add_assoc(x: int, y: int, z: int)
    requires
        0 <= x < fr_p(),
        0 <= y,
        0 <= z < fr_p(),
    ensures
        ((x + y) % fr_p() + z) % fr_p() == (x + (y + z) % fr_p()) % fr_p(),
{
    lemma_fr_consts();
    lemma_small_mod(z as nat, fr_p() as nat);
    lemma_small_mod(x as nat, fr_p() as nat);
    lemma_add_mod_noop(x + y, z, fr_p());
    lemma_add_mod_noop(x, y + z, fr_p());
}

/// Law: field addition is commutative.
pub proof fn lemma_fr_add_comm(x: int, y: int)
    ensures
        (x + y) % fr_p() == (y + x) % fr_p(),
{
}

/// Law: field multiplication distributes over field addition, at the
/// level of the canonical values that `Fr::add` and `Fr::mul` return.
pub proof fn lemma_fr_mul_distrib(x: int, y: int, z: int)
    requires
        0 <= x,
        0 <= y,
        0 <= z,
    ensures
        x * ((y + z) % fr_p()) % fr_p() == (x * y % fr_p() + x * z % fr_p()) % fr_p(),
{
    lemma_fr_consts();
    lemma_mul_mod_noop_right(x, y + z, fr_p());
    lemma_mul_is_distributive_add(x, y, z);
    assert(x * (y + z) == x * y + x * z);
    lemma_add_mod_noop(x * y, x * z, fr_p());
}

/// Law: field multiplication is associative.
pub proof fn lemma_fr_mul_assoc(x: int, y: int, z: int)
    requires
        0 <= x,
        0 <= y,
        0 <= z,
    ensures
        (x * y % fr_p()) * z % fr_p() == x * (y * z % fr_p()) % fr_p(),
{
    lemma_fr_consts();
    lemma_mul_mod_noop_left(x * y, z, fr_p());
    lemma_mul_mod_noop_right(x, y * z, fr_p());
    lemma_mul_is_associative(x, y, z);
}

/// Law: field multiplication is commutative.
pub proof fn lemma_fr_mul_comm(x: int, y: int)
    ensures
        x * y % fr_p() == y * x % fr_p(),
{
    lemma_mul_is_commutative(x, y);
}

/// Law: every element plus its negation is zero.  `n` is what
/// `Fr::neg` returns for `a`, and `s` what `Fr::add` returns for the
/// pair; the sum's value is zero.
pub proof fn lemma_fr_add_neg(a: Fr, n: Fr, s: Fr)
    requires
        a.wf(),
        n.wf(),
        (n.val() + a.val()) % fr_p() == 0,
        s.val() == (a.val() + n.val()) % fr_p(),
    ensures
        s.val() == 0,
{
}


/// The modulus is a nontrivial odd prime-sized number; exported for
/// modules that only need its magnitude.
pub proof fn lemma_fr_nontrivial()
    ensures
        fr_p() > 1,
{
}


/// The difference contract pins the value: if `r + b == a (mod p)` with
/// everything canonical, then `r` is `(a - b) mod p`.
pub proof fn lemma_sub_is_mod(a: int, b: int, r: int)
    requires
        0 <= a < fr_p(),
        0 <= b < fr_p(),
        0 <= r < fr_p(),
        (r + b) % fr_p() == a,
    ensures
        r == (a - b) % fr_p(),
{
    let p = fr_p();
    lemma_fundamental_div_mod(r + b, p);
    let q = (r + b) / p;
    lemma_div_pos_is_pos(r + b, p);
    assert(q * p <= r + b) by {
        lemma_fundamental_div_mod(r + b, p);
    };
    if q >= 2 {
        lemma_mul_inequality(2, q, p);
        assert(false);
    }
    if q == 0 {
        lemma_fundamental_div_mod_converse(a - b, p, 0, r);
    } else {
        lemma_fundamental_div_mod_converse(a - b, p, -1, r);
    }
}


impl Fr {
    /// Reduces a 512-bit little-endian value into the field: the low and
    /// high halves are folded in with one extra Montgomery factor each.
    pub fn from_u512(limbs: [u64; 8]) -> (r: Fr)
        ensures
            r.wf(),
            r.val() == crate::limb::w_val(limbs) as int % fr_p(),
    {
        proof {
            lemma_fr_consts();
        }
        let lo = [limbs[0], limbs[1], limbs[2], limbs[3]];
        let hi = [limbs[4], limbs[5], limbs[6], limbs[7]];
        let lo_elem = Fr::to_mont_form(lo);
        let hi_elem = Fr(crate::limb::mul(hi, R3, MODULUS, INV));
        proof {
            let p = fr_p();
            let k = fr_rinv();
            let hv = l_val(hi) as int;
            let r3 = l_val(R3) as int;
            let raw = hi_elem.raw() as int;
            lemma_val_mul(raw, hv, r3);
            let x = r3 * k % p;
            lemma_mul_mod_noop_general(hv * k, x, p);
            assert((hv * k % p) * (x % p) % p == (hv * k) * x % p);
            lemma_mod_twice(r3 * k, p);
            lemma_mod_bound(r3 * k, p);
            assert((hv * k) * x == hv * (x * k)) by (nonlinear_arith);
            lemma_mul_mod_noop_right(hv, x * k, p);
            assert(x * k % p == fr_r() % p);
            assert(hi_elem.val() == hv * (fr_r() % p) % p);
            lemma_mul_mod_noop_right(hv, fr_r(), p);
            assert(hi_elem.val() == hv * fr_r() % p);
        }
        let out = lo_elem.add(hi_elem);
        proof {
            let p = fr_p();
            lemma_add_mod_noop(l_val(lo) as int, l_val(hi) as int * fr_r(), p);
            lemma_mod_twice(l_val(lo) as int + l_val(hi) as int * fr_r(), p);
            assert(l_val(lo) + l_val(hi) as int * fr_r() == crate::limb::w_val(limbs));
        }
        out
    }

    /// Reduces sixty-four little-endian bytes into the field.
    pub fn from_bytes_wide(bytes: &[u8; 64]) -> (r: Fr)
        ensures
            r.wf(),
            r.val() == crate::codec::le_val(bytes@) as int % fr_p(),
    {
        let l0 = crate::codec::word_from_digits(
            bytes[0], bytes[1], bytes[2], bytes[3], bytes[4], bytes[5], bytes[6], bytes[7],
        );
        let l1 = crate::codec::word_from_digits(
            bytes[8], bytes[9], bytes[10], bytes[11], bytes[12], bytes[13], bytes[14], bytes[15],
        );
        let l2 = crate::codec::word_from_digits(
            bytes[16], bytes[17], bytes[18], bytes[19], bytes[20], bytes[21], bytes[22], bytes[23],
        );
        let l3 = crate::codec::word_from_digits(
            bytes[24], bytes[25], bytes[26], bytes[27], bytes[28], bytes[29], bytes[30], bytes[31],
        );
        let l4 = crate::codec::word_from_digits(
            bytes[32], bytes[33], bytes[34], bytes[35], bytes[36], bytes[37], bytes[38], bytes[39],
        );
        let l5 = crate::codec::word_from_digits(
            bytes[40], bytes[41], bytes[42], bytes[43], bytes[44], bytes[45], bytes[46], bytes[47],
        );
        let l6 = crate::codec::word_from_digits(
            bytes[48], bytes[49], bytes[50], bytes[51], bytes[52], bytes[53], bytes[54], bytes[55],
        );
        let l7 = crate::codec::word_from_digits(
            bytes[56], bytes[57], bytes[58], bytes[59], bytes[60], bytes[61], bytes[62], bytes[63],
        );
        let l = [l0, l1, l2, l3, l4, l5, l6, l7];
        proof {
            crate::codec::lemma_le_val_word(bytes@);
            crate::codec::lemma_le_val_word(bytes@.skip(8));
            crate::codec::lemma_le_val_word(bytes@.skip(16));
            crate::codec::lemma_le_val_word(bytes@.skip(24));
            crate::codec::lemma_le_val_word(bytes@.skip(32));
            crate::codec::lemma_le_val_word(bytes@.skip(40));
            crate::codec::lemma_le_val_word(bytes@.skip(48));
            crate::codec::lemma_le_val_word(bytes@.skip(56));
            assert(bytes@.skip(8).skip(8) =~= bytes@.skip(16));
            assert(bytes@.skip(16).skip(8) =~= bytes@.skip(24));
            assert(bytes@.skip(24).skip(8) =~= bytes@.skip(32));
            assert(bytes@.skip(32).skip(8) =~= bytes@.skip(40));
            assert(bytes@.skip(40).skip(8) =~= bytes@.skip(48));
            assert(bytes@.skip(48).skip(8) =~= bytes@.skip(56));
            assert(bytes@.skip(56).skip(8) =~= bytes@.skip(64));
            assert(crate::codec::le_val(bytes@.skip(64)) == 0);
            assert(crate::limb::w_val(l) == crate::codec::le_val(bytes@));
        }
        Fr::from_u512(l)
    }

    /// Reduces a 64-byte hash output into the field.
    pub fn from_hash(hash: &[u8]) -> (r: Fr)
        requires
            hash@.len() == 64,
        ensures
            r.wf(),
            r.val() == crate::codec::le_val(hash@) as int % fr_p(),
    {
        let mut arr = [0u8; 64];
        let mut i: usize = 0;
        while i < 64
            invariant
                i <= 64,
                hash@.len() == 64,
                forall|j: int| 0 <= j < i ==> arr@[j] == hash@[j],
            decreases 64 - i,
        {
            arr[i] = hash[i];
            i = i + 1;
        }
        proof {
            assert(arr@ =~= hash@);
        }
        Fr::from_bytes_wide(&arr)
    }
}


impl Fr {
    /// Strips the Montgomery factor in place: the returned element
    /// stores the canonical value as plain limbs.
    pub fn reduce(&self) -> (r: Fr)
        requires
            self.wf(),
        ensures
            r.wf(),
            r.raw() == self.val(),
    {
        proof {
            lemma_fr_consts();
            lemma_mod_bound(self.raw() as int * fr_rinv(), fr_p());
        }
        Fr(self.montgomery_reduce())
    }
}


impl Fr {
    /// Shifts the stored limbs right by `n` bits: the stored value is
    /// divided by `2^n` (shifting by 256 or more clears the element).
    pub fn divn(&mut self, n: u32)
        requires
            old(self).wf(),
        ensures
            final(self).wf(),
            final(self).raw() == old(self).raw() / pow2(n as nat),
    {
        let ghost orig = self.raw();
        if n >= 256 {
            proof {
                lemma_pow2_adds(256, (n - 256) as nat);
                lemma_pow2_pos(256);
                lemma_pow2_pos((n - 256) as nat);
                lemma_mul_left_inequality(pow2(256) as int, 1, pow2((n - 256) as nat) as int);
                lemma_mul_basics(pow2(256) as int);
                lemma_pow2_adds(64, 64);
                lemma_pow2_adds(128, 64);
                lemma_pow2_adds(192, 64);
                vstd::arithmetic::power2::lemma2_to64();
                lemma_basic_div(orig as int, pow2(n as nat) as int);
                lemma_fr_consts();
                lemma_small_mod(0nat, fr_p() as nat);
            }
            self.0 = [0, 0, 0, 0];
            return ;
        }
        let mut rem = n;
        proof {
            vstd::arithmetic::power2::lemma2_to64();
            lemma_div_basics(orig as int);
        }
        while rem >= 64
            invariant
                self.wf(),
                rem <= n < 256,
                self.raw() == orig / pow2((n - rem) as nat),
            decreases rem,
        {
            let t = self.0;
            proof {
                lemma_word_shift(t);
                crate::codec::lemma_div_div_pow2(orig, (n - rem) as nat, 64);
            }
            self.0 = [t[1], t[2], t[3], 0];
            rem = rem - 64;
        }
        if rem > 0 {
            let t = self.0;
            let sh: u64 = rem as u64;
            proof {
                vstd::arithmetic::power2::lemma2_to64();
                vstd::arithmetic::power2::lemma2_to64_rest();
                vstd::bits::lemma_u64_pow2_no_overflow(sh as nat);
                vstd::bits::lemma_u64_shl_is_mul(1u64, sh);
                lemma_mul_basics(pow2(sh as nat) as int);
            }
            let mask: u64 = (1u64 << sh) - 1;
            proof {
                lemma_bit_shift_parts(t[0], t[1], sh, mask);
                lemma_bit_shift_parts(t[1], t[2], sh, mask);
                lemma_bit_shift_parts(t[2], t[3], sh, mask);
                lemma_bit_shift_parts(t[3], 0, sh, mask);
            }
            let r = [
                (t[0] >> sh) + ((t[1] & mask) << ((64 - sh) as u64)),
                (t[1] >> sh) + ((t[2] & mask) << ((64 - sh) as u64)),
                (t[2] >> sh) + ((t[3] & mask) << ((64 - sh) as u64)),
                t[3] >> sh,
            ];
            proof {
                lemma_limb_shift_value(t, r, sh as nat);
                crate::codec::lemma_div_div_pow2(orig, (n - rem) as nat, rem as nat);
            }
            self.0 = r;
        }
    }
}

/// Shifting the limb array down by one whole word divides the value by
/// `2^64`.
proof fn lemma_word_shift(t: [u64; 4])
    ensures
        l_val([t[1], t[2], t[3], 0]) == l_val(t) / pow2(64),
{
    vstd::arithmetic::power2::lemma2_to64();
    vstd::arithmetic::power2::lemma2_to64_rest();
    lemma_fundamental_div_mod_converse(
        l_val(t) as int,
        0x10000000000000000,
        l_val([t[1], t[2], t[3], 0]) as int,
        t[0] as int,
    );
}

/// The two shifted pieces of one output limb: the kept high bits of the
/// lower word and the wrapped low bits of the upper word.
proof fn lemma_bit_shift_parts(lo: u64, hi: u64, sh: u64, mask: u64)
    requires
        1 <= sh < 64,
        mask == vstd::bits::low_bits_mask(sh as nat),
    ensures
        (lo >> sh) == lo as nat / pow2(sh as nat),
        (hi & mask) == hi as nat % pow2(sh as nat),
        lo as nat / pow2(sh as nat) < pow2((64 - sh) as nat),
        (hi as nat % pow2(sh as nat)) * pow2((64 - sh) as nat) <= 0xffffffffffffffff + 1
            - pow2((64 - sh) as nat),
        ((hi & mask) << ((64 - sh) as u64)) == (hi as nat % pow2(sh as nat)) * pow2(
            (64 - sh) as nat,
        ),
{
    vstd::arithmetic::power2::lemma2_to64();
    vstd::arithmetic::power2::lemma2_to64_rest();
    vstd::bits::lemma_u64_shr_is_div(lo, sh);
    vstd::bits::lemma_u64_low_bits_mask_is_mod(hi, sh as nat);
    lemma_pow2_adds(sh as nat, (64 - sh) as nat);
    lemma_pow2_pos(sh as nat);
    lemma_pow2_pos((64 - sh) as nat);
    lemma_multiply_divide_lt(lo as int, pow2(sh as nat) as int, pow2((64 - sh) as nat) as int);
    lemma_mod_bound(hi as int, pow2(sh as nat) as int);
    lemma_mul_inequality(
        (hi as nat % pow2(sh as nat)) as int,
        pow2(sh as nat) as int - 1,
        pow2((64 - sh) as nat) as int,
    );
    lemma_mul_is_distributive_sub_other_way(pow2((64 - sh) as nat) as int, pow2(sh as nat) as int, 1);
    vstd::bits::lemma_u64_shl_is_mul((hi & mask), (64 - sh) as u64);
}

/// The shifted limb array spells the value divided by `2^sh`.
proof fn lemma_limb_shift_value(t: [u64; 4], r: [u64; 4], sh: nat)
    requires
        1 <= sh < 64,
        r[0] as nat == t[0] as nat / pow2(sh) + (t[1] as nat % pow2(sh)) * pow2((64 - sh) as nat),
        r[1] as nat == t[1] as nat / pow2(sh) + (t[2] as nat % pow2(sh)) * pow2((64 - sh) as nat),
        r[2] as nat == t[2] as nat / pow2(sh) + (t[3] as nat % pow2(sh)) * pow2((64 - sh) as nat),
        r[3] as nat == t[3] as nat / pow2(sh),
    ensures
        l_val(r) == l_val(t) / pow2(sh),
{
    let pn = pow2(sh) as int;
    let pm = pow2((64 - sh) as nat) as int;
    lemma_pow2_adds(sh, (64 - sh) as nat);
    vstd::arithmetic::power2::lemma2_to64();
    lemma_pow2_pos(sh);
    lemma_pow2_pos((64 - sh) as nat);
    let q0 = t[0] as int / pn;
    let q1 = t[1] as int / pn;
    let q2 = t[2] as int / pn;
    let q3 = t[3] as int / pn;
    let r0 = t[0] as int % pn;
    let r1 = t[1] as int % pn;
    let r2 = t[2] as int % pn;
    let r3 = t[3] as int % pn;
    lemma_fundamental_div_mod(t[0] as int, pn);
    lemma_fundamental_div_mod(t[1] as int, pn);
    lemma_fundamental_div_mod(t[2] as int, pn);
    lemma_fundamental_div_mod(t[3] as int, pn);
    lemma_mod_bound(t[0] as int, pn);
    assert(l_val(t) as int == pn * (l_val(r) as int) + r0) by (nonlinear_arith)
        requires
            pn * pm == 0x10000000000000000,
            t[0] as int == pn * q0 + r0,
            t[1] as int == pn * q1 + r1,
            t[2] as int == pn * q2 + r2,
            t[3] as int == pn * q3 + r3,
            r[0] as int == q0 + r1 * pm,
            r[1] as int == q1 + r2 * pm,
            r[2] as int == q2 + r3 * pm,
            r[3] as int == q3,
            l_val(t) == t[0] as nat + t[1] as nat * 0x10000000000000000 + t[2] as nat
                * 0x100000000000000000000000000000000 + t[3] as nat
                * 0x1000000000000000000000000000000000000000000000000,
            l_val(r) == r[0] as nat + r[1] as nat * 0x10000000000000000 + r[2] as nat
                * 0x100000000000000000000000000000000 + r[3] as nat
                * 0x1000000000000000000000000000000000000000000000000,
    ;
    lemma_fundamental_div_mod_converse(l_val(t) as int, pn, l_val(r) as int, r0);
}


impl Fr {
    /// `2^by` in the field, by a square-and-select ladder over the bits
    /// of the exponent word: the selection is by mask, not by branch.
    pub fn pow_of_2(by: u64) -> (r: Fr)
        ensures
            r.wf(),
            r.val() == pow(2, by as nat) % fr_p(),
    {
        let two = Fr::from_u64(2);
        let mut res = Fr::one();
        proof {
            lemma_fr_consts();
            vstd::arithmetic::power2::lemma2_to64();
            vstd::arithmetic::power2::lemma2_to64_rest();
            lemma_pow2_pos(64);
            lemma_basic_div(by as int, pow2(64) as int);
            lemma_pow0(2);
            lemma_small_mod(1nat, fr_p() as nat);
        }
        let mut i: u64 = 64;
        while i > 0
            invariant
                two.wf(),
                two.val() == 2,
                res.wf(),
                i <= 64,
                res.val() == pow(2, by as nat / pow2(i as nat)) % fr_p(),
            decreases i,
        {
            i = i - 1;
            let ghost e = by as nat / pow2((i + 1) as nat);
            let ghost xv = res.val();
            res = res.square();
            proof {
                lemma_pow_sq_pub(2, xv, e);
            }
            let ghost yv = res.val();
            let mut tmp = res;
            tmp = tmp.mul(two);
            proof {
                lemma_pow_mul_pub(2, yv, 2 * e);
                vstd::bits::lemma_u64_shr_is_div(by, i);
                vstd::bits::lemma_u64_low_bits_mask_is_mod(by >> i, 1);
                vstd::bits::lemma_low_bits_mask_values();
                vstd::arithmetic::power2::lemma2_to64();
                lemma_exp_step(by as nat, i as nat);
            }
            let bit = (by >> i) & 1 == 1;
            res = Fr::conditional_select(&res, &tmp, bit);
        }
        proof {
            vstd::arithmetic::power2::lemma2_to64();
            lemma_div_basics(by as int);
        }
        res
    }
}


/// The number a base-4 digit string denotes, most significant first.
pub open spec fn base4_val(s: Seq<u8>) -> nat
    decreases s.len(),
{
    if s.len() == 0 {
        0
    } else {
        base4_val(s.drop_last()) * 4 + s.last() as nat
    }
}

/// Reading a value one base-4 digit further down scales the prefix by
/// four and adds the digit.
proof fn lemma_quad_step(v: nat, d: nat)
    ensures
        v / pow2(2 * d) == 4 * (v / pow2((2 * (d + 1)) as nat)) + v / pow2(2 * d) % 4,
{
    crate::codec::lemma_div_div_pow2(v, 2 * d, 2);
    vstd::arithmetic::power2::lemma2_to64();
    lemma_pow2_pos(2 * d);
    lemma_pow2_pos((2 * d + 2) as nat);
    assert(v / pow2(2 * d) / pow2(2) == v / pow2(2 * d + 2));
    assert(pow2(2) == 4);
    assert(2 * d + 2 == (2 * (d + 1)) as nat);
    lemma_fundamental_div_mod((v / pow2(2 * d)) as int, 4);
}

/// The base-4 digits of a 256-bit limb value, most significant first,
/// leading zeros stripped.
#[verifier::rlimit(100)]
fn base4_digits(t: [u64; 4]) -> (r: Vec<u8>)
    ensures
        base4_val(r@) == l_val(t),
        forall|i: int| 0 <= i < r@.len() ==> (#[trigger] r@[i]) < 4,
        r@.len() > 0 ==> r@[0] != 0,
        r@.len() == 0 ==> l_val(t) == 0,
{
    let ghost v = l_val(t);
    let mut out: Vec<u8> = Vec::new();
    let mut d: usize = 128;
    proof {
        lemma_pow2_adds(64, 64);
        lemma_pow2_adds(128, 64);
        lemma_pow2_adds(192, 64);
        vstd::arithmetic::power2::lemma2_to64();
        lemma_pow2_pos(256);
        lemma_basic_div(v as int, pow2(256) as int);
    }
    while d > 0
        invariant
            d <= 128,
            v == l_val(t),
            forall|i: int| 0 <= i < out@.len() ==> (#[trigger] out@[i]) < 4,
            out@.len() == 0 ==> v / pow2((2 * d) as nat) == 0,
            out@.len() > 0 ==> out@[0] != 0 && base4_val(out@) == v / pow2((2 * d) as nat),
        decreases d,
    {
        d = d - 1;
        let dig = crate::codec::limb_quad(t, d);
        proof {
            lemma_quad_step(v, d as nat);
        }
        if out.len() > 0 || dig != 0 {
            let ghost prev = out@;
            out.push(dig);
            proof {
                assert(out@.drop_last() =~= prev);
                assert(out@.last() == dig);
                assert(base4_val(out@) == base4_val(prev) * 4 + dig as nat);
            }
        }
    }
    proof {
        vstd::arithmetic::power2::lemma2_to64();
        lemma_div_basics(v as int);
    }
    out
}

impl Fr {
    /// A square-root candidate and its check: the element raised to
    /// `(p + 1) / 4`, returned exactly when squaring it gives the element
    /// back.  For this modulus not every square has such a root, so the
    /// check decides; the returned root is itself to that fixed power.
    pub fn sqrt(&self) -> (r: Option<Fr>)
        requires
            self.wf(),
        ensures
            ({
                let c = pow(
                    self.val(),
                    0x1cfb69d4ca675f520cce76020268760154ef6900bfff96ffbfffffffc0000000nat,
                ) % fr_p();
                &&& (r is Some <==> (c * c) % fr_p() == self.val())
                &&& (r matches Some(s) ==> s.wf() && s.val() == c && (s.val() * s.val()) % fr_p()
                    == self.val())
            }),
    {
        let exp: [u64; 4] = [
            0xbfffffffc0000000,
            0x54ef6900bfff96ff,
            0x0cce760202687601,
            0x1cfb69d4ca675f52,
        ];
        proof {
            assert(l_val(exp)
                == 0x1cfb69d4ca675f520cce76020268760154ef6900bfff96ffbfffffffc0000000nat);
        }
        let cand = self.pow_vartime(&exp);
        let sq = cand.square();
        if sq.ct_eq(self) {
            Some(cand)
        } else {
            None
        }
    }

    /// The canonical value as base-4 digits, most significant first,
    /// leading zeros stripped: the form the signed-digit recoding of a
    /// scalar starts from.
    pub fn to_costomized_repr(self) -> (r: Vec<u8>)
        requires
            self.wf(),
        ensures
            base4_val(r@) == self.val(),
            forall|i: int| 0 <= i < r@.len() ==> (#[trigger] r@[i]) < 4,
            r@.len() > 0 ==> r@[0] != 0,
            r@.len() == 0 ==> self.val() == 0,
    {
        let t = self.montgomery_reduce();
        base4_digits(t)
    }
}

} // verus!
