//! Fixed-width 256-bit limb arithmetic in Montgomery form.
//!
//! A field element is four little-endian 64-bit limbs whose value is
//! strictly below the modulus `p`.  Every routine here states its result
//! as an exact function of the mathematical limb values.

use vstd::prelude::*;
use vstd::arithmetic::div_mod::*;
use vstd::arithmetic::mul::*;
use vstd::arithmetic::power::*;
use vstd::arithmetic::power2::*;

verus! {

/// Value of a 256-bit little-endian limb array.
pub open spec fn l_val(a: [u64; 4]) -> nat {
    a[0] as nat
        + a[1] as nat * 0x10000000000000000
        + a[2] as nat * 0x100000000000000000000000000000000
        + a[3] as nat * 0x1000000000000000000000000000000000000000000000000
}

/// Value of a 512-bit little-endian limb array (a double-width product).
pub open spec fn w_val(a: [u64; 8]) -> nat {
    a[0] as nat
        + a[1] as nat * 0x10000000000000000
        + a[2] as nat * 0x100000000000000000000000000000000
        + a[3] as nat * 0x1000000000000000000000000000000000000000000000000
        + a[4] as nat * 0x10000000000000000000000000000000000000000000000000000000000000000
        + a[5] as nat * 0x100000000000000000000000000000000000000000000000000000000000000000000000000000000
        + a[6] as nat * 0x1000000000000000000000000000000000000000000000000000000000000000000000000000000000000000000000000
        + a[7] as nat * 0x10000000000000000000000000000000000000000000000000000000000000000000000000000000000000000000000000000000000000000
}

/// The borrow flag fed through a subtraction chain, read as a bit.
pub open spec fn borrow_bit(b: u64) -> nat {
    if b == 0 {
        0
    } else {
        1
    }
}

/// Add with carry: full 64-bit addition returning (low word, carry word).
pub(crate) fn adc(a: u64, b: u64, carry: u64) -> (r: (u64, u64))
    ensures
        r.0 as nat + r.1 as nat * 0x10000000000000000 == a as nat + b as nat + carry as nat,
        r.1 <= 2,
{
    let t: u128 = a as u128 + b as u128 + carry as u128;
    proof {
        lemma_fundamental_div_mod(t as int, 0x10000000000000000);
        lemma_mod_bound(t as int, 0x10000000000000000);
        lemma_div_pos_is_pos(t as int, 0x10000000000000000);
    }
    let lo: u64 = (t % 0x10000000000000000) as u64;
    let hi: u64 = (t / 0x10000000000000000) as u64;
    (lo, hi)
}

/// Subtract with borrow, branch-free: the borrow words flowing through
/// a chain are always `0` or `u64::MAX`, the incoming one is read off
/// its top bit, and the outgoing one is rebuilt by mask arithmetic.
pub(crate) fn sbb(a: u64, b: u64, borrow: u64) -> (r: (u64, u64))
    requires
        borrow == 0 || borrow == u64::MAX,
    ensures
        r.1 == 0 || r.1 == u64::MAX,
        a as int >= b as int + borrow_bit(borrow) ==> r.0 as int == a as int - b as int
            - borrow_bit(borrow) && r.1 == 0,
        (a as int) < b as int + borrow_bit(borrow) ==> r.0 as int == a as int
            + 0x10000000000000000 - b as int - borrow_bit(borrow) && r.1 == u64::MAX,
{
    proof {
        assert(0u64 >> 63u64 == 0u64 && 0xffffffffffffffffu64 >> 63u64 == 1u64) by (bit_vector);
    }
    let bin: u64 = borrow >> 63;
    proof {
        assert(bin == borrow_bit(borrow));
    }
    let t: u128 = (a as u128 + 0x10000000000000000u128) - (b as u128) - (bin as u128);
    proof {
        let ti = t as int;
        if a as int >= b as int + bin {
            lemma_fundamental_div_mod_converse(
                ti,
                0x10000000000000000,
                1,
                a as int - b as int - bin,
            );
        } else {
            lemma_fundamental_div_mod_converse(
                ti,
                0x10000000000000000,
                0,
                ti,
            );
        }
    }
    let lo: u64 = (t % 0x10000000000000000) as u64;
    let no_borrow: u64 = (t / 0x10000000000000000) as u64;
    let mask: u64 = (1 - no_borrow) * 0xffffffffffffffff;
    (lo, mask)
}

/// Multiply and accumulate: returns the two words of `a + b * c + d`.
pub(crate) fn mac(a: u64, b: u64, c: u64, d: u64) -> (r: (u64, u64))
    ensures
        r.0 as nat + r.1 as nat * 0x10000000000000000 == a as nat + b as nat * c as nat
            + d as nat,
{
    proof {
        lemma_mul_upper_bound(b as int, 0xffffffffffffffff, c as int, 0xffffffffffffffff);
    }
    let t: u128 = a as u128 + (b as u128) * (c as u128) + d as u128;
    proof {
        lemma_fundamental_div_mod(t as int, 0x10000000000000000);
        lemma_mod_bound(t as int, 0x10000000000000000);
        lemma_div_pos_is_pos(t as int, 0x10000000000000000);
    }
    let lo: u64 = (t % 0x10000000000000000) as u64;
    let hi: u64 = (t / 0x10000000000000000) as u64;
    (lo, hi)
}

/// A word built by or-ing four limbs is zero exactly when all four are.
proof fn lemma_or_zero(a0: u64, a1: u64, a2: u64, a3: u64)
    by (bit_vector)
    ensures
        (a0 | a1 | a2 | a3 == 0) <==> (a0 == 0 && a1 == 0 && a2 == 0 && a3 == 0),
{
}

/// Bit masking by a borrow word keeps or clears a limb.
proof fn lemma_mask(x: u64)
    by (bit_vector)
    ensures
        x & 0u64 == 0u64,
        x & 0xffffffffffffffffu64 == x,
{
}

/// The word-sized Montgomery factor: `(w * inv) mod 2^64`.
fn mul_factor(w: u64, inv: u64) -> (m: u64)
    ensures
        m as nat == (w as nat * inv as nat) % 0x10000000000000000,
{
    proof {
        lemma_mul_upper_bound(w as int, 0xffffffffffffffff, inv as int, 0xffffffffffffffff);
        lemma_mod_bound(w as int * inv as int, 0x10000000000000000);
    }
    ((w as u128 * inv as u128) % 0x10000000000000000) as u64
}

/// With `inv * p0 == -1 (mod 2^64)`, adding `((w * inv) mod 2^64) * p0`
/// to `w` clears the low word.
proof fn lemma_mont_factor(w: u64, inv: u64, p0: u64)
    requires
        (inv as nat * p0 as nat + 1) % 0x10000000000000000 == 0,
    ensures
        (w as nat + ((w as nat * inv as nat) % 0x10000000000000000) * p0 as nat)
            % 0x10000000000000000 == 0,
{
    let b: int = 0x10000000000000000;
    let wi = w as int;
    let ii = inv as int;
    let pi = p0 as int;
    let m = (wi * ii) % b;
    lemma_mul_nonnegative(wi, ii);
    lemma_mul_mod_noop_left(wi * ii, pi, b);
    assert((m * pi) % b == (wi * ii * pi) % b);
    lemma_add_mod_noop_right(wi, m * pi, b);
    lemma_add_mod_noop_right(wi, wi * ii * pi, b);
    assert((wi + m * pi) % b == (wi + wi * ii * pi) % b);
    lemma_mul_is_associative(wi, ii, pi);
    assert(wi * ii * pi == wi * (ii * pi));
    // inv * p0 is congruent to b - 1
    let s = ii * pi + 1;
    lemma_mul_nonnegative(ii, pi);
    lemma_fundamental_div_mod(s, b);
    let q = s / b;
    assert(ii * pi == q * b - 1);
    lemma_div_pos_is_pos(s, b);
    if q == 0 {
        assert(ii * pi == -1);
        assert(false);
    }
    lemma_fundamental_div_mod_converse(ii * pi, b, q - 1, b - 1);
    assert((ii * pi) % b == b - 1);
    lemma_mul_mod_noop_right(wi, ii * pi, b);
    assert((wi * (ii * pi)) % b == (wi * (b - 1)) % b);
    lemma_add_mod_noop_right(wi, wi * (b - 1), b);
    lemma_mul_is_distributive_sub(wi, b, 1);
    assert(wi + wi * (b - 1) == wi * b);
    lemma_mod_multiples_basic(wi, b);
    assert((wi * b) % b == 0);
    assert((wi + m * pi) % b == 0);
}

/// A low word that a full Montgomery round proves divisible by `2^64`
/// must be zero.
proof fn lemma_low_zero(z: u64, d: u64, s: int)
    requires
        z as int + d as int * 0x10000000000000000 == s,
        s % 0x10000000000000000 == 0,
    ensures
        z == 0,
{
    let b: int = 0x10000000000000000;
    lemma_fundamental_div_mod(s, b);
    let q = s / b;
    assert(s == b * q);
    assert(z as int == b * q - b * (d as int));
    lemma_mul_is_distributive_sub(b, q, d as int);
    assert(z as int == b * (q - d));
    if q - d >= 1 {
        lemma_mul_inequality(1, q - d, b);
        assert(false);
    }
    if q - d <= -1 {
        lemma_mul_inequality(q - d, -1, b);
        assert(false);
    }
}

/// One word times a four-limb value, spread over the limb positions.
proof fn lemma_distrib4(m: int, x0: int, x1: int, x2: int, x3: int)
    by (nonlinear_arith)
    ensures
        m * (x0 + x1 * 0x10000000000000000 + x2 * 0x100000000000000000000000000000000 + x3
            * 0x1000000000000000000000000000000000000000000000000) == m * x0 + m * x1
            * 0x10000000000000000 + m * x2 * 0x100000000000000000000000000000000 + m * x3
            * 0x1000000000000000000000000000000000000000000000000,
{
}

/// One Montgomery round: clears the low word `cur` by adding the right
/// multiple of `p`, returning the five words one position up together
/// with the factor that was used.
fn mont_round(cur: u64, x1: u64, x2: u64, x3: u64, x4: u64, e: u64, p: [u64; 4], inv: u64) -> (r:
    (u64, u64, u64, u64, u64, u64))
    requires
        (inv as nat * p[0] as nat + 1) % 0x10000000000000000 == 0,
    ensures
        cur as nat + x1 as nat * 0x10000000000000000 + x2 as nat
            * 0x100000000000000000000000000000000 + x3 as nat
            * 0x1000000000000000000000000000000000000000000000000 + x4 as nat
            * 0x10000000000000000000000000000000000000000000000000000000000000000 + e as nat
            * 0x10000000000000000000000000000000000000000000000000000000000000000 + r.5 as nat
            * l_val(p) == r.0 as nat * 0x10000000000000000 + r.1 as nat
            * 0x100000000000000000000000000000000 + r.2 as nat
            * 0x1000000000000000000000000000000000000000000000000 + r.3 as nat
            * 0x10000000000000000000000000000000000000000000000000000000000000000 + r.4 as nat
            * 0x100000000000000000000000000000000000000000000000000000000000000000000000000000000,
{
    let m = mul_factor(cur, inv);
    let (z, d) = mac(cur, m, p[0], 0);
    proof {
        lemma_mont_factor(cur, inv, p[0]);
        lemma_low_zero(z, d, cur as int + m as int * p[0] as int);
    }
    let (n1, d) = mac(x1, m, p[1], d);
    let (n2, d) = mac(x2, m, p[2], d);
    let (n3, d) = mac(x3, m, p[3], d);
    let (n4, eo) = adc(x4, e, d);
    proof {
        lemma_distrib4(m as int, p[0] as int, p[1] as int, p[2] as int, p[3] as int);
    }
    (n1, n2, n3, n4, eo, m)
}

/// Montgomery reduction of a double-width value: returns `r < p` with
/// `r * 2^256 == a (mod p)`.
#[verifier::rlimit(100)]
pub fn mont(a: [u64; 8], p: [u64; 4], inv: u64) -> (r: [u64; 4])
    requires
        w_val(a) < l_val(p) * 0x10000000000000000000000000000000000000000000000000000000000000000,
        l_val(p) < 0x8000000000000000000000000000000000000000000000000000000000000000,
        (inv as nat * p[0] as nat + 1) % 0x10000000000000000 == 0,
    ensures
        l_val(r) < l_val(p),
        (l_val(r) * 0x10000000000000000000000000000000000000000000000000000000000000000) % l_val(p)
            == w_val(a) % l_val(p),
{
    proof {
        if p[0] == 0 {
            lemma_small_mod(1nat, 0x10000000000000000);
            assert(false);
        }
    }
    let ghost pv = l_val(p);
    let ghost wv = w_val(a);

    let (n1, n2, n3, n4, e1, m0) = mont_round(a[0], a[1], a[2], a[3], a[4], 0, p, inv);
    let (q1, q2, q3, q4, e2, m1) = mont_round(n1, n2, n3, n4, a[5], e1, p, inv);
    let (s1, s2, s3, s4, e3, m2) = mont_round(q1, q2, q3, q4, a[6], e2, p, inv);
    let (t1, t2, t3, t4, e4, m3) = mont_round(s1, s2, s3, s4, a[7], e3, p, inv);
    let out = [t1, t2, t3, t4];
    proof {
        let b1: int = 0x10000000000000000int;
        let b2: int = 0x100000000000000000000000000000000int;
        let b3: int = 0x1000000000000000000000000000000000000000000000000int;
        let b4: int = 0x10000000000000000000000000000000000000000000000000000000000000000int;
        let b8: int = b4 * b4;
        let pi = pv as int;
        let k0 = m0 as int * pi;
        let k1 = m1 as int * pi;
        let k2 = m2 as int * pi;
        let k3 = m3 as int * pi;
        // the four round identities, scaled to their limb positions, telescope
        assert(wv + k0 == n1 as int * b1 + n2 as int * b2 + n3 as int * b3 + n4 as int * b4
            + e1 as int * b4 * b1 + a[5] as int * b4 * b1 + a[6] as int * b4 * b2 + a[7] as int
            * b4 * b3);
        assert(n1 as int * b1 + n2 as int * b2 + n3 as int * b3 + n4 as int * b4 + e1 as int * b4
            * b1 + a[5] as int * b4 * b1 + k1 * b1 == q1 as int * b2 + q2 as int * b3 + q3 as int
            * b4 + q4 as int * b4 * b1 + e2 as int * b4 * b2);
        assert(wv + k0 + k1 * b1 == q1 as int * b2 + q2 as int * b3 + q3 as int * b4 + q4 as int
            * b4 * b1 + e2 as int * b4 * b2 + a[6] as int * b4 * b2 + a[7] as int * b4 * b3);
        assert(q1 as int * b2 + q2 as int * b3 + q3 as int * b4 + q4 as int * b4 * b1 + e2 as int
            * b4 * b2 + a[6] as int * b4 * b2 + k2 * b2 == s1 as int * b3 + s2 as int * b4
            + s3 as int * b4 * b1 + s4 as int * b4 * b2 + e3 as int * b4 * b3);
        assert(wv + k0 + k1 * b1 + k2 * b2 == s1 as int * b3 + s2 as int * b4 + s3 as int * b4
            * b1 + s4 as int * b4 * b2 + e3 as int * b4 * b3 + a[7] as int * b4 * b3);
        assert(s1 as int * b3 + s2 as int * b4 + s3 as int * b4 * b1 + s4 as int * b4 * b2
            + e3 as int * b4 * b3 + a[7] as int * b4 * b3 + k3 * b3 == t1 as int * b4 + t2 as int
            * b4 * b1 + t3 as int * b4 * b2 + t4 as int * b4 * b3 + e4 as int * b8);
        assert(wv + k0 + k1 * b1 + k2 * b2 + k3 * b3 == l_val(out) as int * b4 + e4 as int * b8);

        // each factor times p stays below 2^64 * p, so the total is under
        // 2 * p * 2^256 and the top carry is zero
        lemma_mul_inequality(m0 as int, 0xffffffffffffffff, pi);
        lemma_mul_inequality(m1 as int, 0xffffffffffffffff, pi);
        lemma_mul_inequality(m2 as int, 0xffffffffffffffff, pi);
        lemma_mul_inequality(m3 as int, 0xffffffffffffffff, pi);
        assert(e4 == 0);
        assert(l_val(out) < 2 * pv);

        // the multiples of p vanish modulo p
        let outv = l_val(out) as int;
        lemma_mul_is_commutative(m0 as int, pi);
        lemma_mul_is_commutative(m1 as int, pi);
        lemma_mul_is_commutative(m2 as int, pi);
        lemma_mul_is_commutative(m3 as int, pi);
        lemma_mul_is_associative(pi, m1 as int, b1);
        lemma_mul_is_associative(pi, m2 as int, b2);
        lemma_mul_is_associative(pi, m3 as int, b3);
        assert(outv * b4 == wv + pi * (m0 as int) + pi * (m1 as int * b1) + pi * (m2 as int * b2)
            + pi * (m3 as int * b3));
        lemma_mod_multiples_vanish(m0 as int, wv as int, pi);
        lemma_mod_multiples_vanish(m1 as int * b1, wv as int + pi * (m0 as int), pi);
        lemma_mod_multiples_vanish(
            m2 as int * b2,
            wv as int + pi * (m0 as int) + pi * (m1 as int * b1),
            pi,
        );
        lemma_mod_multiples_vanish(
            m3 as int * b3,
            wv as int + pi * (m0 as int) + pi * (m1 as int * b1) + pi * (m2 as int * b2),
            pi,
        );
        assert((outv * b4) % pi == wv as int % pi);
    }
    let r = crate::limb::sub(out, p, p);
    proof {
        let b4: int = 0x10000000000000000000000000000000000000000000000000000000000000000int;
        let outv = l_val(out) as int;
        let rv = l_val(r) as int;
        let pi = pv as int;
        if l_val(out) >= pv {
            lemma_fundamental_div_mod_converse(outv, pi, 1, outv - pi);
            lemma_small_mod(l_val(r), pv);
            assert(rv % pi == outv % pi);
        } else {
            lemma_small_mod(l_val(out), pv);
            lemma_small_mod(l_val(r), pv);
            assert(rv % pi == outv % pi);
        }
        lemma_mul_mod_noop_left(rv, b4, pi);
        lemma_mul_mod_noop_left(outv, b4, pi);
        assert((rv * b4) % pi == (outv * b4) % pi);
    }
    r
}

/// Constant-time-style comparison through a borrow chain: whether
/// `a < b` as 256-bit values.
pub(crate) fn lt(a: [u64; 4], b: [u64; 4]) -> (r: bool)
    ensures
        r <==> l_val(a) < l_val(b),
{
    let (d0, brw) = sbb(a[0], b[0], 0);
    let (d1, brw) = sbb(a[1], b[1], brw);
    let (d2, brw) = sbb(a[2], b[2], brw);
    let (d3, brw) = sbb(a[3], b[3], brw);
    proof {
        let d = [d0, d1, d2, d3];
        if brw == 0 {
            assert(l_val(d) as int == l_val(a) - l_val(b));
        } else {
            assert(l_val(d) as int == l_val(a)
                + 0x10000000000000000000000000000000000000000000000000000000000000000 - l_val(b));
        }
    }
    brw == u64::MAX
}

/// Modular addition of limb values below the modulus: `(a + b) mod p`.
pub fn add(a: [u64; 4], b: [u64; 4], p: [u64; 4]) -> (r: [u64; 4])
    requires
        l_val(a) < l_val(p),
        l_val(b) < l_val(p),
        l_val(p) < 0x8000000000000000000000000000000000000000000000000000000000000000,
    ensures
        l_val(r) == (l_val(a) + l_val(b)) % l_val(p),
        l_val(r) < l_val(p),
{
    let (l0, c) = adc(a[0], b[0], 0);
    let (l1, c) = adc(a[1], b[1], c);
    let (l2, c) = adc(a[2], b[2], c);
    let (l3, c4) = adc(a[3], b[3], c);
    let s = [l0, l1, l2, l3];
    proof {
        assert(l_val(s) + c4 as nat * 0x10000000000000000000000000000000000000000000000000000000000000000
            == l_val(a) + l_val(b));
        assert(c4 == 0);
        assert(l_val(s) == l_val(a) + l_val(b));
    }
    let r = crate::limb::sub(s, p, p);
    proof {
        let pv = l_val(p) as int;
        if l_val(s) >= l_val(p) {
            lemma_fundamental_div_mod_converse(l_val(s) as int, pv, 1, l_val(s) - pv);
        } else {
            lemma_small_mod(l_val(s), l_val(p));
        }
    }
    r
}

/// Modular subtraction: computes `a - b`, adding `p` back on underflow.
/// For inputs below `p` the result is `(a - b) mod p`.
pub fn sub(a: [u64; 4], b: [u64; 4], p: [u64; 4]) -> (r: [u64; 4])
    requires
        l_val(b) <= l_val(a) + l_val(p),
    ensures
        l_val(r) as int == if l_val(a) >= l_val(b) {
            l_val(a) - l_val(b)
        } else {
            l_val(a) + l_val(p) - l_val(b)
        },
        l_val(a) < l_val(p) && l_val(b) < l_val(p) ==> l_val(r) as int == (l_val(a) - l_val(
            b,
        )) % (l_val(p) as int),
{
    let (d0, brw) = sbb(a[0], b[0], 0);
    let (d1, brw) = sbb(a[1], b[1], brw);
    let (d2, brw) = sbb(a[2], b[2], brw);
    let (d3, brw) = sbb(a[3], b[3], brw);
    proof {
        lemma_mask(p[0]);
        lemma_mask(p[1]);
        lemma_mask(p[2]);
        lemma_mask(p[3]);
        let d = [d0, d1, d2, d3];
        if brw == 0 {
            assert(l_val(d) as int == l_val(a) - l_val(b));
        } else {
            assert(l_val(d) as int == l_val(a)
                + 0x10000000000000000000000000000000000000000000000000000000000000000 - l_val(b));
        }
    }
    let (l0, c) = adc(d0, p[0] & brw, 0);
    let (l1, c) = adc(d1, p[1] & brw, c);
    let (l2, c) = adc(d2, p[2] & brw, c);
    let (l3, c4) = adc(d3, p[3] & brw, c);
    let r = [l0, l1, l2, l3];
    proof {
        let d = [d0, d1, d2, d3];
        if brw == 0 {
            assert(l_val(r) + c4 as nat
                * 0x10000000000000000000000000000000000000000000000000000000000000000 == l_val(d));
            assert(c4 == 0);
        } else {
            assert(l_val(r) + c4 as nat
                * 0x10000000000000000000000000000000000000000000000000000000000000000 == l_val(d)
                + l_val(p));
            assert(l_val(a) < l_val(b));
            assert(c4 == 1);
        }
        if l_val(a) < l_val(p) && l_val(b) < l_val(p) {
            let pv = l_val(p) as int;
            if l_val(a) >= l_val(b) {
                lemma_fundamental_div_mod_converse(l_val(a) - l_val(b), pv, 0, l_val(a) - l_val(b));
            } else {
                lemma_fundamental_div_mod_converse(
                    l_val(a) - l_val(b),
                    pv,
                    -1,
                    l_val(a) + pv - l_val(b),
                );
            }
        }
    }
    r
}

/// Modular doubling: `(2 * a) mod p`.
pub fn double(a: [u64; 4], p: [u64; 4]) -> (r: [u64; 4])
    requires
        l_val(a) < l_val(p),
        l_val(p) < 0x8000000000000000000000000000000000000000000000000000000000000000,
    ensures
        l_val(r) == (l_val(a) + l_val(a)) % l_val(p),
        l_val(r) < l_val(p),
{
    crate::limb::add(a, a, p)
}

/// Modular negation, branch-free: `0` stays `0`, anything else maps to
/// `p - a`; a mask built from the is-zero test selects between them.
pub fn neg(a: [u64; 4], p: [u64; 4]) -> (r: [u64; 4])
    requires
        l_val(a) < l_val(p),
    ensures
        l_val(r) == if l_val(a) == 0 {
            0int
        } else {
            l_val(p) - l_val(a)
        },
        l_val(r) < l_val(p),
{
    let s = crate::limb::sub(p, a, p);
    let z: u64 = a[0] | a[1] | a[2] | a[3];
    proof {
        lemma_or_zero(a[0], a[1], a[2], a[3]);
    }
    let nz: u64 = ((z as u128 + 0xffffffffffffffffu128) / 0x10000000000000000) as u64;
    proof {
        if z == 0 {
            lemma_basic_div(z as int + 0xffffffffffffffff, 0x10000000000000000);
        } else {
            lemma_fundamental_div_mod_converse(
                z as int + 0xffffffffffffffff,
                0x10000000000000000,
                1,
                z as int - 1,
            );
        }
    }
    let mask: u64 = nz * 0xffffffffffffffff;
    proof {
        lemma_mask(s[0]);
        lemma_mask(s[1]);
        lemma_mask(s[2]);
        lemma_mask(s[3]);
    }
    [s[0] & mask, s[1] & mask, s[2] & mask, s[3] & mask]
}



/// One schoolbook row: adds `x` times the four limbs of `b` onto a
/// four-limb window, producing five output words.
fn mul_row(y0: u64, y1: u64, y2: u64, y3: u64, x: u64, b: [u64; 4]) -> (r: (
    u64,
    u64,
    u64,
    u64,
    u64,
))
    ensures
        r.0 as nat + r.1 as nat * 0x10000000000000000 + r.2 as nat * 0x100000000000000000000000000000000 + r.3 as nat * 0x1000000000000000000000000000000000000000000000000 + r.4 as nat * 0x10000000000000000000000000000000000000000000000000000000000000000
            == y0 as nat + y1 as nat * 0x10000000000000000 + y2 as nat * 0x100000000000000000000000000000000 + y3 as nat * 0x1000000000000000000000000000000000000000000000000 + x as nat
            * l_val(b),
{
    let (l0, c) = mac(y0, x, b[0], 0);
    let (l1, c) = mac(y1, x, b[1], c);
    let (l2, c) = mac(y2, x, b[2], c);
    let (l3, l4) = mac(y3, x, b[3], c);
    proof {
        lemma_distrib4(x as int, b[0] as int, b[1] as int, b[2] as int, b[3] as int);
    }
    (l0, l1, l2, l3, l4)
}

/// Montgomery product: returns `r < p` with `r * 2^256 == a * b (mod p)`.
#[verifier::rlimit(100)]
pub fn mul(a: [u64; 4], b: [u64; 4], p: [u64; 4], inv: u64) -> (r: [u64; 4])
    requires
        l_val(b) < l_val(p),
        l_val(p) < 0x8000000000000000000000000000000000000000000000000000000000000000,
        (inv as nat * p[0] as nat + 1) % 0x10000000000000000 == 0,
    ensures
        l_val(r) < l_val(p),
        (l_val(r) * 0x10000000000000000000000000000000000000000000000000000000000000000) % l_val(p) == (l_val(a) * l_val(b)) % l_val(p),
{
    let (t0, u1, u2, u3, u4) = mul_row(0, 0, 0, 0, a[0], b);
    let (t1, v1, v2, v3, v4) = mul_row(u1, u2, u3, u4, a[1], b);
    let (t2, w1, w2, w3, w4) = mul_row(v1, v2, v3, v4, a[2], b);
    let (t3, t4, t5, t6, t7) = mul_row(w1, w2, w3, w4, a[3], b);
    let t = [t0, t1, t2, t3, t4, t5, t6, t7];
    proof {
        let b1: int = 0x10000000000000000int;
        let b2: int = 0x100000000000000000000000000000000int;
        let b3: int = 0x1000000000000000000000000000000000000000000000000int;
        let b4: int = 0x10000000000000000000000000000000000000000000000000000000000000000int;
        let av = l_val(a) as int;
        let bv = l_val(b) as int;
        let k0 = a[0] as int * bv;
        let k1 = a[1] as int * bv;
        let k2 = a[2] as int * bv;
        let k3 = a[3] as int * bv;
        assert(t0 as int + u1 as int * b1 + u2 as int * b2 + u3 as int * b3 + u4 as int * b4
            == k0);
        assert(t0 as int + t1 as int * b1 + v1 as int * b2 + v2 as int * b3 + v3 as int * b4
            + v4 as int * b4 * b1 == k0 + k1 * b1);
        assert(t0 as int + t1 as int * b1 + t2 as int * b2 + w1 as int * b3 + w2 as int * b4
            + w3 as int * b4 * b1 + w4 as int * b4 * b2 == k0 + k1 * b1 + k2 * b2);
        assert(w_val(t) as int == k0 + k1 * b1 + k2 * b2 + k3 * b3);
        lemma_distrib4(bv, a[0] as int, a[1] as int, a[2] as int, a[3] as int);
        lemma_mul_is_commutative(bv, av);
        lemma_mul_is_commutative(bv, a[0] as int);
        lemma_mul_is_commutative(bv, a[1] as int);
        lemma_mul_is_commutative(bv, a[2] as int);
        lemma_mul_is_commutative(bv, a[3] as int);
        assert(w_val(t) as int == av * bv);
        // the product stays below p * 2^256
        if av == 0 || bv == 0 {
            lemma_mul_basics(bv);
            lemma_mul_basics(av);
            lemma_mul_strictly_positive(
                l_val(p) as int,
                0x10000000000000000000000000000000000000000000000000000000000000000int,
            );
            assert(w_val(t) < l_val(p) * 0x10000000000000000000000000000000000000000000000000000000000000000);
        } else {
            lemma_mul_strict_upper_bound(bv, l_val(p) as int, av, b4);
            lemma_mul_is_commutative(bv, av);
            lemma_mul_is_commutative(l_val(p) as int - 1, b4 - 1);
            lemma_mul_inequality(b4 - 1, b4, l_val(p) as int - 1);
            lemma_mul_is_commutative(b4, l_val(p) as int - 1);
            lemma_mul_is_distributive_sub(b4, l_val(p) as int, 1);
            assert(w_val(t) < l_val(p) * 0x10000000000000000000000000000000000000000000000000000000000000000);
        }
    }
    let r = crate::limb::mont(t, p, inv);
    r
}

/// Montgomery squaring: `r * 2^256 == a * a (mod p)`.
pub fn square(a: [u64; 4], p: [u64; 4], inv: u64) -> (r: [u64; 4])
    requires
        l_val(a) < l_val(p),
        l_val(p) < 0x8000000000000000000000000000000000000000000000000000000000000000,
        (inv as nat * p[0] as nat + 1) % 0x10000000000000000 == 0,
    ensures
        l_val(r) < l_val(p),
        (l_val(r) * 0x10000000000000000000000000000000000000000000000000000000000000000) % l_val(p) == (l_val(a) * l_val(a)) % l_val(p),
{
    crate::limb::mul(a, a, p, inv)
}


/// `2^256` raised to an exponent, as used in the Montgomery power facts.
pub open spec fn rpow(e: nat) -> int {
    pow(0x10000000000000000000000000000000000000000000000000000000000000000int, e)
}

/// The invariant of an exponentiation chain in Montgomery form: `x`
/// carries `base` to the power `e`, with `e - 1` pending factors of
/// `2^-256` absorbed on the left.
#[verifier::opaque]
pub open spec fn chain_fact(x: nat, e: nat, base: int, p: int) -> bool {
    &&& 1 <= e
    &&& (x as int * rpow((e - 1) as nat)) % p == pow(base, e) % p
}

/// The base fact of an exponentiation chain: a value is itself to the
/// first power, with no Montgomery factor yet.
proof fn lemma_chain_base(x: nat, p: int)
    requires
        p > 1,
    ensures
        chain_fact(x, 1, x as int, p),
{
    reveal(chain_fact);
    lemma_pow0(0x10000000000000000000000000000000000000000000000000000000000000000int);
    lemma_pow1(x as int);
    lemma_mul_basics(x as int);
}

/// A Montgomery product of two chain values adds their exponents:
/// from `x ~ base^ex` and `y ~ base^ey` and `r * 2^256 == x * y (mod p)`
/// follows `r ~ base^(ex + ey)`.
proof fn lemma_chain_mul(x: nat, ex: nat, y: nat, ey: nat, r: nat, base: int, p: int)
    requires
        p > 1,
        base >= 0,
        chain_fact(x, ex, base, p),
        chain_fact(y, ey, base, p),
        (r as int * 0x10000000000000000000000000000000000000000000000000000000000000000int) % p == (x as int * y as int) % p,
    ensures
        chain_fact(r, (ex + ey) as nat, base, p),
{
    reveal(chain_fact);
    let b4: int = 0x10000000000000000000000000000000000000000000000000000000000000000int;
    let xi = x as int;
    let yi = y as int;
    let ri = r as int;
    let px = pow(b4, (ex - 1) as nat);
    let py = pow(b4, (ey - 1) as nat);
    lemma_pow_positive(b4, (ex - 1) as nat);
    lemma_pow_positive(b4, (ey - 1) as nat);
    lemma_pow_adds(b4, (ex - 1) as nat, (ey - 1) as nat);
    lemma_pow1(b4);
    lemma_pow_adds(b4, 1nat, (ex + ey - 2) as nat);
    assert(pow(b4, (ex + ey - 1) as nat) == b4 * (px * py));
    lemma_mul_is_associative(ri, b4, px * py);
    assert(ri * pow(b4, (ex + ey - 1) as nat) == (ri * b4) * (px * py));
    lemma_mul_mod_noop_left(ri * b4, px * py, p);
    lemma_mul_mod_noop_left(xi * yi, px * py, p);
    assert(((ri * b4) * (px * py)) % p == ((xi * yi) * (px * py)) % p);
    assert((xi * yi) * (px * py) == (xi * px) * (yi * py)) by (nonlinear_arith);
    lemma_mul_mod_noop_general(xi * px, yi * py, p);
    lemma_mul_mod_noop_general(pow(base, ex), pow(base, ey), p);
    assert(((xi * px) * (yi * py)) % p == (pow(base, ex) * pow(base, ey)) % p);
    lemma_pow_adds(base, ex, ey);
}

/// One multiplication step of an exponentiation chain.
fn chain_mul_step(
    x: [u64; 4],
    y: [u64; 4],
    p: [u64; 4],
    inv: u64,
    Ghost(base): Ghost<int>,
    Ghost(ex): Ghost<nat>,
    Ghost(ey): Ghost<nat>,
) -> (r: [u64; 4])
    requires
        l_val(x) < l_val(p),
        l_val(y) < l_val(p),
        l_val(p) > 1,
        l_val(p) < 0x8000000000000000000000000000000000000000000000000000000000000000,
        (inv as nat * p[0] as nat + 1) % 0x10000000000000000 == 0,
        base >= 0,
        chain_fact(l_val(x), ex, base, l_val(p) as int),
        chain_fact(l_val(y), ey, base, l_val(p) as int),
    ensures
        l_val(r) < l_val(p),
        chain_fact(l_val(r), (ex + ey) as nat, base, l_val(p) as int),
{
    let r = crate::limb::mul(x, y, p, inv);
    proof {
        lemma_chain_mul(l_val(x), ex, l_val(y), ey, l_val(r), base, l_val(p) as int);
    }
    r
}

/// One squaring step of an exponentiation chain.
fn chain_sq_step(
    x: [u64; 4],
    p: [u64; 4],
    inv: u64,
    Ghost(base): Ghost<int>,
    Ghost(ex): Ghost<nat>,
) -> (r: [u64; 4])
    requires
        l_val(x) < l_val(p),
        l_val(p) > 1,
        l_val(p) < 0x8000000000000000000000000000000000000000000000000000000000000000,
        (inv as nat * p[0] as nat + 1) % 0x10000000000000000 == 0,
        base >= 0,
        chain_fact(l_val(x), ex, base, l_val(p) as int),
    ensures
        l_val(r) < l_val(p),
        chain_fact(l_val(r), (ex + ex) as nat, base, l_val(p) as int),
{
    chain_mul_step(x, x, p, inv, Ghost(base), Ghost(ex), Ghost(ex))
}

/// Repeated Montgomery squaring; the chain exponent doubles each time.
fn multi_square(
    a: [u64; 4],
    p: [u64; 4],
    inv: u64,
    num_times: usize,
    Ghost(base): Ghost<int>,
    Ghost(e): Ghost<nat>,
) -> (r: [u64; 4])
    requires
        l_val(a) < l_val(p),
        l_val(p) > 1,
        l_val(p) < 0x8000000000000000000000000000000000000000000000000000000000000000,
        (inv as nat * p[0] as nat + 1) % 0x10000000000000000 == 0,
        base >= 0,
        chain_fact(l_val(a), e, base, l_val(p) as int),
    ensures
        l_val(r) < l_val(p),
        chain_fact(l_val(r), (e * pow2(num_times as nat)) as nat, base, l_val(p) as int),
{
    let mut cur = a;
    let mut i: usize = 0;
    proof {
        lemma2_to64();
        lemma_mul_basics(e as int);
    }
    while i < num_times
        invariant
            i <= num_times,
            l_val(cur) < l_val(p),
            l_val(p) > 1,
            l_val(p) < 0x8000000000000000000000000000000000000000000000000000000000000000,
            (inv as nat * p[0] as nat + 1) % 0x10000000000000000 == 0,
            base >= 0,
            chain_fact(l_val(cur), (e * pow2(i as nat)) as nat, base, l_val(p) as int),
        decreases num_times - i,
    {
        let ghost ecur = (e * pow2(i as nat)) as nat;
        cur = chain_sq_step(cur, p, inv, Ghost(base), Ghost(ecur));
        proof {
            lemma_pow2_unfold((i + 1) as nat);
            lemma_mul_is_associative(e as int, 2, pow2(i as nat) as int);
            lemma_mul_is_commutative(e as int, 2);
            lemma_mul_is_associative(2, e as int, pow2(i as nat) as int);
            assert((e * pow2((i + 1) as nat)) as nat == (ecur + ecur) as nat);
        }
        i = i + 1;
    }
    cur
}

/// Inversion by a fixed addition chain raising to `q - 2`, where `q` is
/// the embedded-curve scalar modulus this chain was derived from.  Zero
/// has no inverse and yields `None`; any other input is taken to the
/// power `q - 2`, in Montgomery form.
#[verifier::rlimit(100)]
pub fn invert(a: [u64; 4], p: [u64; 4], inv: u64) -> (r: Option<[u64; 4]>)
    requires
        l_val(a) < l_val(p),
        l_val(p) == 0xe7db4ea6533afa906673b0101343b00a6682093ccc81082d0970e5ed6f72cb7,
        (inv as nat * p[0] as nat + 1) % 0x10000000000000000 == 0,
    ensures
        r is None <==> l_val(a) == 0,
        r matches Some(v) ==> l_val(v) < l_val(p) && (l_val(v) as int * rpow(
            0xe7db4ea6533afa906673b0101343b00a6682093ccc81082d0970e5ed6f72cb4nat,
        )) % (l_val(p) as int) == pow(l_val(a) as int, 0xe7db4ea6533afa906673b0101343b00a6682093ccc81082d0970e5ed6f72cb5nat) % (l_val(p) as int),
{
    if a[0] == 0 && a[1] == 0 && a[2] == 0 && a[3] == 0 {
        return None;
    }
    let ghost base = l_val(a) as int;
    let ghost pv = l_val(p) as int;
    proof {
        lemma_chain_base(l_val(a), pv);
        lemma2_to64();
    }
    let t1 = chain_sq_step(a, p, inv, Ghost(base), Ghost(0x1nat));
    let t0 = chain_sq_step(t1, p, inv, Ghost(base), Ghost(0x2nat));
    let t3 = chain_mul_step(t0, t1, p, inv, Ghost(base), Ghost(0x4nat), Ghost(0x2nat));
    let t6 = chain_mul_step(t3, a, p, inv, Ghost(base), Ghost(0x6nat), Ghost(0x1nat));
    let t7 = chain_mul_step(t6, t1, p, inv, Ghost(base), Ghost(0x7nat), Ghost(0x2nat));
    let t12 = chain_mul_step(t7, t3, p, inv, Ghost(base), Ghost(0x9nat), Ghost(0x6nat));
    let t13 = chain_mul_step(t12, t0, p, inv, Ghost(base), Ghost(0xfnat), Ghost(0x4nat));
    let t16 = chain_mul_step(t12, t3, p, inv, Ghost(base), Ghost(0xfnat), Ghost(0x6nat));
    let t2 = chain_mul_step(t13, t3, p, inv, Ghost(base), Ghost(0x13nat), Ghost(0x6nat));
    let t15 = chain_mul_step(t16, t3, p, inv, Ghost(base), Ghost(0x15nat), Ghost(0x6nat));
    let t19 = chain_mul_step(t2, t0, p, inv, Ghost(base), Ghost(0x19nat), Ghost(0x4nat));
    let t9 = chain_mul_step(t15, t3, p, inv, Ghost(base), Ghost(0x1bnat), Ghost(0x6nat));
    let t18 = chain_mul_step(t9, t3, p, inv, Ghost(base), Ghost(0x21nat), Ghost(0x6nat));
    let t14 = chain_mul_step(t18, t1, p, inv, Ghost(base), Ghost(0x27nat), Ghost(0x2nat));
    let t4 = chain_mul_step(t18, t0, p, inv, Ghost(base), Ghost(0x27nat), Ghost(0x4nat));
    let t8 = chain_mul_step(t18, t3, p, inv, Ghost(base), Ghost(0x27nat), Ghost(0x6nat));
    let t17 = chain_mul_step(t14, t3, p, inv, Ghost(base), Ghost(0x29nat), Ghost(0x6nat));
    let t11 = chain_mul_step(t8, t3, p, inv, Ghost(base), Ghost(0x2dnat), Ghost(0x6nat));
    let t1 = chain_mul_step(t17, t3, p, inv, Ghost(base), Ghost(0x2fnat), Ghost(0x6nat));
    let t5 = chain_mul_step(t11, t3, p, inv, Ghost(base), Ghost(0x33nat), Ghost(0x6nat));
    let t3 = chain_mul_step(t5, t0, p, inv, Ghost(base), Ghost(0x39nat), Ghost(0x4nat));
    let t0 = chain_sq_step(t5, p, inv, Ghost(base), Ghost(0x39nat));
    let t0 = multi_square(t0, p, inv, 5, Ghost(base), Ghost(0x72nat));
    proof {
        assert(chain_fact(l_val(t0), 0xe40nat, base, pv));
    }
    let t0 = chain_mul_step(t0, t3, p, inv, Ghost(base), Ghost(0xe40nat), Ghost(0x3dnat));
    let t0 = multi_square(t0, p, inv, 6, Ghost(base), Ghost(0xe7dnat));
    proof {
        assert(chain_fact(l_val(t0), 0x39f40nat, base, pv));
    }
    let t0 = chain_mul_step(t0, t8, p, inv, Ghost(base), Ghost(0x39f40nat), Ghost(0x2dnat));
    let t0 = multi_square(t0, p, inv, 7, Ghost(base), Ghost(0x39f6dnat));
    proof {
        assert(chain_fact(l_val(t0), 0x1cfb680nat, base, pv));
    }
    let t0 = chain_mul_step(t0, t19, p, inv, Ghost(base), Ghost(0x1cfb680nat), Ghost(0x1dnat));
    let t0 = multi_square(t0, p, inv, 6, Ghost(base), Ghost(0x1cfb69dnat));
    proof {
        assert(chain_fact(l_val(t0), 0x73eda740nat, base, pv));
    }
    let t0 = chain_mul_step(t0, t13, p, inv, Ghost(base), Ghost(0x73eda740nat), Ghost(0x13nat));
    let t0 = multi_square(t0, p, inv, 8, Ghost(base), Ghost(0x73eda753nat));
    proof {
        assert(chain_fact(l_val(t0), 0x73eda75300nat, base, pv));
    }
    let t0 = chain_mul_step(t0, t14, p, inv, Ghost(base), Ghost(0x73eda75300nat), Ghost(0x29nat));
    let t0 = multi_square(t0, p, inv, 6, Ghost(base), Ghost(0x73eda75329nat));
    proof {
        assert(chain_fact(l_val(t0), 0x1cfb69d4ca40nat, base, pv));
    }
    let t0 = chain_mul_step(t0, t18, p, inv, Ghost(base), Ghost(0x1cfb69d4ca40nat), Ghost(0x27nat));
    let t0 = multi_square(t0, p, inv, 7, Ghost(base), Ghost(0x1cfb69d4ca67nat));
    proof {
        assert(chain_fact(l_val(t0), 0xe7db4ea653380nat, base, pv));
    }
    let t0 = chain_mul_step(t0, t17, p, inv, Ghost(base), Ghost(0xe7db4ea653380nat), Ghost(0x2fnat));
    let t0 = multi_square(t0, p, inv, 5, Ghost(base), Ghost(0xe7db4ea6533afnat));
    proof {
        assert(chain_fact(l_val(t0), 0x1cfb69d4ca675e0nat, base, pv));
    }
    let t0 = chain_mul_step(t0, t16, p, inv, Ghost(base), Ghost(0x1cfb69d4ca675e0nat), Ghost(0x15nat));
    let t0 = multi_square(t0, p, inv, 3, Ghost(base), Ghost(0x1cfb69d4ca675f5nat));
    proof {
        assert(chain_fact(l_val(t0), 0xe7db4ea6533afa8nat, base, pv));
    }
    let t0 = chain_mul_step(t0, a, p, inv, Ghost(base), Ghost(0xe7db4ea6533afa8nat), Ghost(0x1nat));
    let t0 = multi_square(t0, p, inv, 11, Ghost(base), Ghost(0xe7db4ea6533afa9nat));
    proof {
        assert(chain_fact(l_val(t0), 0x73eda753299d7d4800nat, base, pv));
    }
    let t0 = chain_mul_step(t0, t11, p, inv, Ghost(base), Ghost(0x73eda753299d7d4800nat), Ghost(0x33nat));
    let t0 = multi_square(t0, p, inv, 8, Ghost(base), Ghost(0x73eda753299d7d4833nat));
    proof {
        assert(chain_fact(l_val(t0), 0x73eda753299d7d483300nat, base, pv));
    }
    let t0 = chain_mul_step(t0, t5, p, inv, Ghost(base), Ghost(0x73eda753299d7d483300nat), Ghost(0x39nat));
    let t0 = multi_square(t0, p, inv, 5, Ghost(base), Ghost(0x73eda753299d7d483339nat));
    proof {
        assert(chain_fact(l_val(t0), 0xe7db4ea6533afa9066720nat, base, pv));
    }
    let t0 = chain_mul_step(t0, t15, p, inv, Ghost(base), Ghost(0xe7db4ea6533afa9066720nat), Ghost(0x1bnat));
    let t0 = multi_square(t0, p, inv, 8, Ghost(base), Ghost(0xe7db4ea6533afa906673bnat));
    proof {
        assert(chain_fact(l_val(t0), 0xe7db4ea6533afa906673b00nat, base, pv));
    }
    let t0 = chain_mul_step(t0, a, p, inv, Ghost(base), Ghost(0xe7db4ea6533afa906673b00nat), Ghost(0x1nat));
    let t0 = multi_square(t0, p, inv, 12, Ghost(base), Ghost(0xe7db4ea6533afa906673b01nat));
    proof {
        assert(chain_fact(l_val(t0), 0xe7db4ea6533afa906673b01000nat, base, pv));
    }
    let t0 = chain_mul_step(t0, t13, p, inv, Ghost(base), Ghost(0xe7db4ea6533afa906673b01000nat), Ghost(0x13nat));
    let t0 = multi_square(t0, p, inv, 7, Ghost(base), Ghost(0xe7db4ea6533afa906673b01013nat));
    proof {
        assert(chain_fact(l_val(t0), 0x73eda753299d7d483339d8080980nat, base, pv));
    }
    let t0 = chain_mul_step(t0, t9, p, inv, Ghost(base), Ghost(0x73eda753299d7d483339d8080980nat), Ghost(0x21nat));
    let t0 = multi_square(t0, p, inv, 5, Ghost(base), Ghost(0x73eda753299d7d483339d80809a1nat));
    proof {
        assert(chain_fact(l_val(t0), 0xe7db4ea6533afa906673b01013420nat, base, pv));
    }
    let t0 = chain_mul_step(t0, t15, p, inv, Ghost(base), Ghost(0xe7db4ea6533afa906673b01013420nat), Ghost(0x1bnat));
    let t0 = multi_square(t0, p, inv, 14, Ghost(base), Ghost(0xe7db4ea6533afa906673b0101343bnat));
    proof {
        assert(chain_fact(l_val(t0), 0x39f6d3a994cebea4199cec0404d0ec000nat, base, pv));
    }
    let t0 = chain_mul_step(t0, t14, p, inv, Ghost(base), Ghost(0x39f6d3a994cebea4199cec0404d0ec000nat), Ghost(0x29nat));
    let t0 = multi_square(t0, p, inv, 5, Ghost(base), Ghost(0x39f6d3a994cebea4199cec0404d0ec029nat));
    proof {
        assert(chain_fact(l_val(t0), 0x73eda753299d7d483339d80809a1d80520nat, base, pv));
    }
    let t0 = chain_mul_step(t0, t13, p, inv, Ghost(base), Ghost(0x73eda753299d7d483339d80809a1d80520nat), Ghost(0x13nat));
    let t0 = multi_square(t0, p, inv, 2, Ghost(base), Ghost(0x73eda753299d7d483339d80809a1d80533nat));
    proof {
        assert(chain_fact(l_val(t0), 0x1cfb69d4ca675f520cce7602026876014ccnat, base, pv));
    }
    let t0 = chain_mul_step(t0, a, p, inv, Ghost(base), Ghost(0x1cfb69d4ca675f520cce7602026876014ccnat), Ghost(0x1nat));
    let t0 = multi_square(t0, p, inv, 6, Ghost(base), Ghost(0x1cfb69d4ca675f520cce7602026876014cdnat));
    proof {
        assert(chain_fact(l_val(t0), 0x73eda753299d7d483339d80809a1d8053340nat, base, pv));
    }
    let t0 = chain_mul_step(t0, a, p, inv, Ghost(base), Ghost(0x73eda753299d7d483339d80809a1d8053340nat), Ghost(0x1nat));
    let t0 = multi_square(t0, p, inv, 9, Ghost(base), Ghost(0x73eda753299d7d483339d80809a1d8053341nat));
    proof {
        assert(chain_fact(l_val(t0), 0xe7db4ea6533afa906673b0101343b00a668200nat, base, pv));
    }
    let t0 = chain_mul_step(t0, t7, p, inv, Ghost(base), Ghost(0xe7db4ea6533afa906673b0101343b00a668200nat), Ghost(0x9nat));
    let t0 = multi_square(t0, p, inv, 6, Ghost(base), Ghost(0xe7db4ea6533afa906673b0101343b00a668209nat));
    proof {
        assert(chain_fact(l_val(t0), 0x39f6d3a994cebea4199cec0404d0ec0299a08240nat, base, pv));
    }
    let t0 = chain_mul_step(t0, t12, p, inv, Ghost(base), Ghost(0x39f6d3a994cebea4199cec0404d0ec0299a08240nat), Ghost(0xfnat));
    let t0 = multi_square(t0, p, inv, 8, Ghost(base), Ghost(0x39f6d3a994cebea4199cec0404d0ec0299a0824fnat));
    proof {
        assert(chain_fact(l_val(t0), 0x39f6d3a994cebea4199cec0404d0ec0299a0824f00nat, base, pv));
    }
    let t0 = chain_mul_step(t0, t11, p, inv, Ghost(base), Ghost(0x39f6d3a994cebea4199cec0404d0ec0299a0824f00nat), Ghost(0x33nat));
    let t0 = multi_square(t0, p, inv, 3, Ghost(base), Ghost(0x39f6d3a994cebea4199cec0404d0ec0299a0824f33nat));
    proof {
        assert(chain_fact(l_val(t0), 0x1cfb69d4ca675f520cce7602026876014cd04127998nat, base, pv));
    }
    let t0 = chain_mul_step(t0, a, p, inv, Ghost(base), Ghost(0x1cfb69d4ca675f520cce7602026876014cd04127998nat), Ghost(0x1nat));
    let t0 = multi_square(t0, p, inv, 12, Ghost(base), Ghost(0x1cfb69d4ca675f520cce7602026876014cd04127999nat));
    proof {
        assert(chain_fact(l_val(t0), 0x1cfb69d4ca675f520cce7602026876014cd04127999000nat, base, pv));
    }
    let t0 = chain_mul_step(t0, t9, p, inv, Ghost(base), Ghost(0x1cfb69d4ca675f520cce7602026876014cd04127999000nat), Ghost(0x21nat));
    let t0 = multi_square(t0, p, inv, 11, Ghost(base), Ghost(0x1cfb69d4ca675f520cce7602026876014cd04127999021nat));
    proof {
        assert(chain_fact(l_val(t0), 0xe7db4ea6533afa906673b0101343b00a6682093ccc810800nat, base, pv));
    }
    let t0 = chain_mul_step(t0, t8, p, inv, Ghost(base), Ghost(0xe7db4ea6533afa906673b0101343b00a6682093ccc810800nat), Ghost(0x2dnat));
    let t0 = multi_square(t0, p, inv, 8, Ghost(base), Ghost(0xe7db4ea6533afa906673b0101343b00a6682093ccc81082dnat));
    proof {
        assert(chain_fact(l_val(t0), 0xe7db4ea6533afa906673b0101343b00a6682093ccc81082d00nat, base, pv));
    }
    let t0 = chain_mul_step(t0, t7, p, inv, Ghost(base), Ghost(0xe7db4ea6533afa906673b0101343b00a6682093ccc81082d00nat), Ghost(0x9nat));
    let t0 = multi_square(t0, p, inv, 4, Ghost(base), Ghost(0xe7db4ea6533afa906673b0101343b00a6682093ccc81082d09nat));
    proof {
        assert(chain_fact(l_val(t0), 0xe7db4ea6533afa906673b0101343b00a6682093ccc81082d090nat, base, pv));
    }
    let t0 = chain_mul_step(t0, t6, p, inv, Ghost(base), Ghost(0xe7db4ea6533afa906673b0101343b00a6682093ccc81082d090nat), Ghost(0x7nat));
    let t0 = multi_square(t0, p, inv, 10, Ghost(base), Ghost(0xe7db4ea6533afa906673b0101343b00a6682093ccc81082d097nat));
    proof {
        assert(chain_fact(l_val(t0), 0x39f6d3a994cebea4199cec0404d0ec0299a0824f3320420b425c00nat, base, pv));
    }
    let t0 = chain_mul_step(t0, t5, p, inv, Ghost(base), Ghost(0x39f6d3a994cebea4199cec0404d0ec0299a0824f3320420b425c00nat), Ghost(0x39nat));
    let t0 = multi_square(t0, p, inv, 7, Ghost(base), Ghost(0x39f6d3a994cebea4199cec0404d0ec0299a0824f3320420b425c39nat));
    proof {
        assert(chain_fact(l_val(t0), 0x1cfb69d4ca675f520cce7602026876014cd0412799902105a12e1c80nat, base, pv));
    }
    let t0 = chain_mul_step(t0, t3, p, inv, Ghost(base), Ghost(0x1cfb69d4ca675f520cce7602026876014cd0412799902105a12e1c80nat), Ghost(0x3dnat));
    let t0 = multi_square(t0, p, inv, 6, Ghost(base), Ghost(0x1cfb69d4ca675f520cce7602026876014cd0412799902105a12e1cbdnat));
    proof {
        assert(chain_fact(l_val(t0), 0x73eda753299d7d483339d80809a1d8053341049e6640841684b872f40nat, base, pv));
    }
    let t0 = chain_mul_step(t0, t4, p, inv, Ghost(base), Ghost(0x73eda753299d7d483339d80809a1d8053341049e6640841684b872f40nat), Ghost(0x2bnat));
    let t0 = multi_square(t0, p, inv, 7, Ghost(base), Ghost(0x73eda753299d7d483339d80809a1d8053341049e6640841684b872f6bnat));
    proof {
        assert(chain_fact(l_val(t0), 0x39f6d3a994cebea4199cec0404d0ec0299a0824f3320420b425c397b580nat, base, pv));
    }
    let t0 = chain_mul_step(t0, t3, p, inv, Ghost(base), Ghost(0x39f6d3a994cebea4199cec0404d0ec0299a0824f3320420b425c397b580nat), Ghost(0x3dnat));
    let t0 = multi_square(t0, p, inv, 5, Ghost(base), Ghost(0x39f6d3a994cebea4199cec0404d0ec0299a0824f3320420b425c397b5bdnat));
    proof {
        assert(chain_fact(l_val(t0), 0x73eda753299d7d483339d80809a1d8053341049e6640841684b872f6b7a0nat, base, pv));
    }
    let t0 = chain_mul_step(t0, t2, p, inv, Ghost(base), Ghost(0x73eda753299d7d483339d80809a1d8053341049e6640841684b872f6b7a0nat), Ghost(0x19nat));
    let t0 = multi_square(t0, p, inv, 6, Ghost(base), Ghost(0x73eda753299d7d483339d80809a1d8053341049e6640841684b872f6b7b9nat));
    proof {
        assert(chain_fact(l_val(t0), 0x1cfb69d4ca675f520cce7602026876014cd0412799902105a12e1cbdadee40nat, base, pv));
    }
    let t0 = chain_mul_step(t0, t2, p, inv, Ghost(base), Ghost(0x1cfb69d4ca675f520cce7602026876014cd0412799902105a12e1cbdadee40nat), Ghost(0x19nat));
    let t0 = multi_square(t0, p, inv, 7, Ghost(base), Ghost(0x1cfb69d4ca675f520cce7602026876014cd0412799902105a12e1cbdadee59nat));
    proof {
        assert(chain_fact(l_val(t0), 0xe7db4ea6533afa906673b0101343b00a6682093ccc81082d0970e5ed6f72c80nat, base, pv));
    }
    let t0 = chain_mul_step(t0, t1, p, inv, Ghost(base), Ghost(0xe7db4ea6533afa906673b0101343b00a6682093ccc81082d0970e5ed6f72c80nat), Ghost(0x35nat));
    proof {
        assert((l_val(t0) as int * rpow(0xe7db4ea6533afa906673b0101343b00a6682093ccc81082d0970e5ed6f72cb4nat)) % pv == pow(base, 0xe7db4ea6533afa906673b0101343b00a6682093ccc81082d0970e5ed6f72cb5nat)
            % pv) by {
            reveal(chain_fact);
            assert(chain_fact(l_val(t0), 0xe7db4ea6533afa906673b0101343b00a6682093ccc81082d0970e5ed6f72cb5nat, base, pv));
        };
    }
    Some(t0)
}

} // verus!
