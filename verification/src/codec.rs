//! Little-endian byte encoding of bounded integers.
//!
//! [`le_val`] is the value of a byte string read least-significant byte
//! first; the lemmas here make it injective and let it be split into
//! 64-bit words, which is how field elements travel across the trust
//! boundary.

use vstd::prelude::*;
use vstd::arithmetic::div_mod::*;
use vstd::arithmetic::mul::*;
use vstd::arithmetic::power2::*;
use vstd::bits::*;

verus! {

/// The number a byte string denotes, little-endian.
pub open spec fn le_val(s: Seq<u8>) -> nat
    decreases s.len(),
{
    if s.len() == 0 {
        0
    } else {
        s[0] as nat + 256 * le_val(s.skip(1))
    }
}

/// Two byte strings of one length denoting one number are equal:
/// little-endian reading is injective.
pub proof fn lemma_le_val_unique(s1: Seq<u8>, s2: Seq<u8>)
    requires
        s1.len() == s2.len(),
        le_val(s1) == le_val(s2),
    ensures
        s1 =~= s2,
    decreases s1.len(),
{
    if s1.len() > 0 {
        let a = le_val(s1.skip(1));
        let b = le_val(s2.skip(1));
        assert(s1[0] as int + 256 * a == s2[0] as int + 256 * b);
        assert(s1[0] == s2[0] && a == b) by {
            if a < b {
                assert(256 * a + 256 <= 256 * b);
            }
            if b < a {
                assert(256 * b + 256 <= 256 * a);
            }
        };
        lemma_le_val_unique(s1.skip(1), s2.skip(1));
        assert forall|i: int| 0 <= i < s1.len() implies s1[i] == s2[i] by {
            if i > 0 {
                assert(s1.skip(1)[i - 1] == s2.skip(1)[i - 1]);
            }
        };
    }
}

/// Splitting a byte string after its first word: the low eight bytes
/// form one 64-bit digit and the rest is scaled by `2^64`.
pub proof fn lemma_le_val_word(s: Seq<u8>)
    requires
        s.len() >= 8,
    ensures
        le_val(s) == s[0] as nat + 256 * (s[1] as nat + 256 * (s[2] as nat + 256 * (s[3] as nat
            + 256 * (s[4] as nat + 256 * (s[5] as nat + 256 * (s[6] as nat + 256 * (
        s[7] as nat))))))) + 0x10000000000000000 * le_val(s.skip(8)),
{
    assert(s.skip(1).skip(1) =~= s.skip(2));
    assert(s.skip(2).skip(1) =~= s.skip(3));
    assert(s.skip(3).skip(1) =~= s.skip(4));
    assert(s.skip(4).skip(1) =~= s.skip(5));
    assert(s.skip(5).skip(1) =~= s.skip(6));
    assert(s.skip(6).skip(1) =~= s.skip(7));
    assert(s.skip(7).skip(1) =~= s.skip(8));
    assert(le_val(s) == s[0] as nat + 256 * le_val(s.skip(1)));
    assert(le_val(s.skip(1)) == s[1] as nat + 256 * le_val(s.skip(2)));
    assert(le_val(s.skip(2)) == s[2] as nat + 256 * le_val(s.skip(3)));
    assert(le_val(s.skip(3)) == s[3] as nat + 256 * le_val(s.skip(4)));
    assert(le_val(s.skip(4)) == s[4] as nat + 256 * le_val(s.skip(5)));
    assert(le_val(s.skip(5)) == s[5] as nat + 256 * le_val(s.skip(6)));
    assert(le_val(s.skip(6)) == s[6] as nat + 256 * le_val(s.skip(7)));
    assert(le_val(s.skip(7)) == s[7] as nat + 256 * le_val(s.skip(8)));
}

/// A 64-bit word is recovered from its eight little-endian digits.
pub proof fn lemma_word_digits(x: u64)
    ensures
        x as nat == (x as nat % 256) + 256 * ((x as nat / 0x100 % 256) + 256 * ((x as nat / 0x10000
            % 256) + 256 * ((x as nat / 0x1000000 % 256) + 256 * ((x as nat / 0x100000000 % 256)
            + 256 * ((x as nat / 0x10000000000 % 256) + 256 * ((x as nat / 0x1000000000000 % 256)
            + 256 * (x as nat / 0x100000000000000 % 256))))))),
{
    let xi = x as int;
    lemma_fundamental_div_mod(xi, 0x100);
    lemma_div_denominator(xi, 0x100, 0x100);
    lemma_fundamental_div_mod(xi / 0x100, 0x100);
    lemma_div_denominator(xi, 0x10000, 0x100);
    lemma_fundamental_div_mod(xi / 0x10000, 0x100);
    lemma_div_denominator(xi, 0x1000000, 0x100);
    lemma_fundamental_div_mod(xi / 0x1000000, 0x100);
    lemma_div_denominator(xi, 0x100000000, 0x100);
    lemma_fundamental_div_mod(xi / 0x100000000, 0x100);
    lemma_div_denominator(xi, 0x10000000000, 0x100);
    lemma_fundamental_div_mod(xi / 0x10000000000, 0x100);
    lemma_div_denominator(xi, 0x1000000000000, 0x100);
    lemma_fundamental_div_mod(xi / 0x1000000000000, 0x100);
    lemma_div_denominator(xi, 0x100000000000000, 0x100);
    lemma_fundamental_div_mod(xi / 0x100000000000000, 0x100);
    lemma_div_pos_is_pos(xi, 0x100000000000000);
    assert(xi / 0x100000000000000 < 256);
    lemma_small_mod((xi / 0x100000000000000) as nat, 256);
}

/// One little-endian digit of a word, by shift and mask.
pub fn word_digit(x: u64, j: u64) -> (r: u8)
    requires
        j < 8,
    ensures
        r as nat == x as nat / pow2((8 * j) as nat) % 256,
{
    proof {
        lemma_u64_shr_is_div(x, (8 * j) as u64);
        lemma_u64_low_bits_mask_is_mod(x >> (8 * j), 8);
        lemma_low_bits_mask_values();
        lemma2_to64();
    }
    ((x >> (8 * j)) & 0xff) as u8
}

/// A word from its eight little-endian digits.
pub fn word_from_digits(x0: u8, x1: u8, x2: u8, x3: u8, x4: u8, x5: u8, x6: u8, x7: u8) -> (r: u64)
    ensures
        r as nat == x0 as nat + 256 * (x1 as nat + 256 * (x2 as nat + 256 * (x3 as nat + 256 * (
        x4 as nat + 256 * (x5 as nat + 256 * (x6 as nat + 256 * (x7 as nat))))))),
{
    x0 as u64 + 0x100 * x1 as u64 + 0x10000 * x2 as u64 + 0x1000000 * x3 as u64 + 0x100000000
        * x4 as u64 + 0x10000000000 * x5 as u64 + 0x1000000000000 * x6 as u64 + 0x100000000000000
        * x7 as u64
}


/// Division by two powers of two composes.
pub proof fn lemma_div_div_pow2(x: nat, a: nat, b: nat)
    ensures
        x / pow2(a) / pow2(b) == x / pow2(a + b),
{
    lemma_pow2_pos(a);
    lemma_pow2_pos(b);
    lemma_pow2_adds(a, b);
    lemma_div_denominator(x as int, pow2(a) as int, pow2(b) as int);
}

/// A bit below the truncation width is unchanged by the truncation.
pub proof fn lemma_bit_nest(x: nat, c: nat, d: nat)
    requires
        d < c,
    ensures
        (x % pow2(c)) / pow2(d) % 2 == x / pow2(d) % 2,
{
    lemma_pow2_pos(c);
    lemma_pow2_pos(d);
    lemma_pow2_pos((d + 1) as nat);
    lemma_pow2_pos((c - d - 1) as nat);
    lemma_pow2_adds((d + 1) as nat, (c - d - 1) as nat);
    lemma_mod_mod(x as int, pow2((d + 1) as nat) as int, pow2((c - d - 1) as nat) as int);
    assert((x % pow2(c)) % pow2((d + 1) as nat) == x % pow2((d + 1) as nat));
    lemma_pow2_adds(d, 1);
    lemma_pow2_unfold((d + 1) as nat);
    // both sides decompose as 2^d * bit + low part
    lemma_mod_breakdown(x as int, pow2(d) as int, 2);
    lemma_mod_breakdown((x % pow2(c)) as int, pow2(d) as int, 2);
    lemma_mod_mod(x as int, pow2(d) as int, 2);
    assert(pow2(d) * 2 == pow2((d + 1) as nat));
    assert((x % pow2(c)) % pow2(d) == x % pow2(d)) by {
        lemma_pow2_adds(d, (c - d) as nat);
        lemma_pow2_pos((c - d) as nat);
        lemma_mod_mod(x as int, pow2(d) as int, pow2((c - d) as nat) as int);
    };
    let bit1 = (x % pow2(c)) / pow2(d) % 2;
    let bit2 = x / pow2(d) % 2;
    assert(pow2(d) as int * bit1 == pow2(d) as int * bit2);
    lemma_mul_equality_converse(pow2(d) as int, bit1 as int, bit2 as int);
}

/// Each limb of a 256-bit array is a base-`2^64` digit of its value.
pub proof fn lemma_limb_extract(t: [u64; 4], j: nat)
    requires
        j < 4,
    ensures
        t[j as int] as nat == crate::limb::l_val(t) / pow2(64 * j) % pow2(64),
{
    lemma2_to64();
    lemma2_to64_rest();
    lemma_pow2_adds(64, 64);
    lemma_pow2_adds(128, 64);
    let v = crate::limb::l_val(t) as int;
    let b1: int = 0x10000000000000000;
    if j == 0 {
        lemma_div_basics(v);
        assert(pow2(0) == 1);
        lemma_fundamental_div_mod_converse(
            v,
            b1,
            t[1] as int + b1 * (t[2] as int + b1 * t[3] as int),
            t[0] as int,
        );
        lemma_fundamental_div_mod_converse(t[0] as int, b1, 0, t[0] as int);
    } else if j == 1 {
        lemma_fundamental_div_mod_converse(
            v,
            b1,
            t[1] as int + b1 * (t[2] as int + b1 * t[3] as int),
            t[0] as int,
        );
        lemma_fundamental_div_mod_converse(
            v / b1,
            b1,
            t[2] as int + b1 * t[3] as int,
            t[1] as int,
        );
    } else if j == 2 {
        lemma_div_div_pow2(crate::limb::l_val(t), 64, 64);
        lemma_fundamental_div_mod_converse(
            v,
            b1,
            t[1] as int + b1 * (t[2] as int + b1 * t[3] as int),
            t[0] as int,
        );
        lemma_fundamental_div_mod_converse(
            v / b1,
            b1,
            t[2] as int + b1 * t[3] as int,
            t[1] as int,
        );
        lemma_fundamental_div_mod_converse(v / b1 / b1, b1, t[3] as int, t[2] as int);
    } else {
        lemma_div_div_pow2(crate::limb::l_val(t), 64, 64);
        lemma_div_div_pow2(crate::limb::l_val(t), 128, 64);
        lemma_fundamental_div_mod_converse(
            v,
            b1,
            t[1] as int + b1 * (t[2] as int + b1 * t[3] as int),
            t[0] as int,
        );
        lemma_fundamental_div_mod_converse(
            v / b1,
            b1,
            t[2] as int + b1 * t[3] as int,
            t[1] as int,
        );
        lemma_fundamental_div_mod_converse(v / b1 / b1, b1, t[3] as int, t[2] as int);
        lemma_fundamental_div_mod_converse(v / b1 / b1 / b1, b1, 0, t[3] as int);
        lemma_small_mod(t[3] as nat, pow2(64));
    }
}

/// Reads one bit of a 256-bit limb array: bit `i` of limb `j` is bit
/// `64 * j + i` of the value.
pub fn limb_bit(t: [u64; 4], j: usize, i: usize) -> (r: bool)
    requires
        j < 4,
        i < 64,
    ensures
        r <==> crate::limb::l_val(t) / pow2((64 * j + i) as nat) % 2 == 1,
{
    proof {
        lemma2_to64();
        lemma_limb_extract(t, j as nat);
        lemma_u64_shr_is_div(t[j as int], i as u64);
        lemma_u64_low_bits_mask_is_mod(t[j as int] >> (i as u64), 1);
        lemma_low_bits_mask_values();
        let v = crate::limb::l_val(t);
        lemma_bit_nest(v / pow2((64 * j) as nat), 64, i as nat);
        lemma_div_div_pow2(v, (64 * j) as nat, i as nat);
    }
    (t[j] >> (i as u64)) & 1 == 1
}


/// A two-bit digit below the truncation width is unchanged by the
/// truncation.
pub proof fn lemma_quad_nest(x: nat, c: nat, d: nat)
    requires
        d + 2 <= c,
    ensures
        (x % pow2(c)) / pow2(d) % 4 == x / pow2(d) % 4,
{
    lemma_pow2_pos(c);
    lemma_pow2_pos(d);
    lemma_pow2_pos((d + 2) as nat);
    lemma_pow2_pos((c - d - 2) as nat);
    lemma_pow2_adds((d + 2) as nat, (c - d - 2) as nat);
    lemma_mod_mod(x as int, pow2((d + 2) as nat) as int, pow2((c - d - 2) as nat) as int);
    assert((x % pow2(c)) % pow2((d + 2) as nat) == x % pow2((d + 2) as nat));
    lemma_pow2_adds(d, 2);
    lemma2_to64();
    lemma_mod_breakdown(x as int, pow2(d) as int, 4);
    lemma_mod_breakdown((x % pow2(c)) as int, pow2(d) as int, 4);
    assert(pow2(d) * 4 == pow2((d + 2) as nat));
    assert((x % pow2(c)) % pow2(d) == x % pow2(d)) by {
        lemma_pow2_adds(d, (c - d) as nat);
        lemma_pow2_pos((c - d) as nat);
        lemma_mod_mod(x as int, pow2(d) as int, pow2((c - d) as nat) as int);
    };
    let d1 = (x % pow2(c)) / pow2(d) % 4;
    let d2 = x / pow2(d) % 4;
    assert(pow2(d) as int * d1 == pow2(d) as int * d2);
    lemma_mul_equality_converse(pow2(d) as int, d1 as int, d2 as int);
}

/// Reads one base-4 digit of a 256-bit limb array: digit `d` lives in
/// limb `d / 32` at bit offset `2 * (d % 32)`.
pub fn limb_quad(t: [u64; 4], d: usize) -> (r: u8)
    requires
        d < 128,
    ensures
        r as nat == crate::limb::l_val(t) / pow2((2 * d) as nat) % 4,
        r < 4,
{
    proof {
        lemma_fundamental_div_mod(d as int, 32);
        assert(64 * (d / 32) + 2 * (d % 32) == 2 * d);
    }
    let j = d / 32;
    let i = d % 32;
    proof {
        lemma2_to64();
        lemma_limb_extract(t, j as nat);
        lemma_u64_shr_is_div(t[j as int], (2 * i) as u64);
        lemma_u64_low_bits_mask_is_mod(t[j as int] >> ((2 * i) as u64), 2);
        lemma_low_bits_mask_values();
        let v = crate::limb::l_val(t);
        lemma_quad_nest(v / pow2((64 * j) as nat), 64, (2 * i) as nat);
        lemma_div_div_pow2(v, (64 * j) as nat, (2 * i) as nat);
        lemma_mod_bound((v / pow2((64 * j + 2 * i) as nat)) as int, 4);
    }
    ((t[j] >> ((2 * i) as u64)) & 3) as u8
}

} // verus!
