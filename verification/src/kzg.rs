//! Commitment keys and polynomial evaluation for the commitment scheme.
//!
//! Setup lays down the successive powers of a secret scalar — the
//! reference string in scalar form, which the host scales onto the
//! group generators — and a commitment is the inner product of a
//! polynomial's coefficients with that string, i.e. the polynomial
//! evaluated "in the exponent".

use vstd::prelude::*;
use vstd::arithmetic::div_mod::*;
use vstd::arithmetic::power::*;
use crate::fr::{Fr, fr_p};
use crate::fft::{Polynomial, all_wf, vals};

verus! {

/// A polynomial evaluated at a point, Horner style, over the field.
pub open spec fn poly_eval_v(c: Seq<int>, x: int) -> int
    decreases c.len(),
{
    if c.len() == 0 {
        0
    } else {
        (c[0] + x * poly_eval_v(c.skip(1), x)) % fr_p()
    }
}

/// The inner product of coefficients with a reference string.
pub open spec fn inner_v(c: Seq<int>, k: Seq<int>) -> int
    decreases c.len(),
{
    if c.len() == 0 || k.len() == 0 {
        0
    } else {
        (c[0] * k[0] % fr_p() + inner_v(c.skip(1), k.skip(1))) % fr_p()
    }
}

/// The structured reference string: the powers of the setup secret, one
/// per supported coefficient.
pub struct KeyPair {
    pub max_degree: u32,
    pub powers: Vec<Fr>,
}

impl KeyPair {
    /// The string holds exactly the `max_degree + 1` successive powers
    /// of some secret.
    pub open spec fn wf(self) -> bool {
        &&& self.powers@.len() == self.max_degree + 1
        &&& all_wf(self.powers@)
    }

    /// One-time setup: lay down `1, s, s^2, .., s^n` for the secret `s`.
    pub fn setup(max_degree: u32, secret: Fr) -> (r: KeyPair)
        requires
            secret.wf(),
        ensures
            r.wf(),
            r.max_degree == max_degree,
            forall|i: int|
                0 <= i <= max_degree ==> (#[trigger] r.powers@[i]).val() == pow(
                    secret.val(),
                    i as nat,
                ) % fr_p(),
    {
        let mut powers: Vec<Fr> = Vec::new();
        let mut cur = Fr::one();
        proof {
            lemma_pow0(secret.val());
            crate::fr::lemma_fr_nontrivial();
            lemma_small_mod(1nat, fr_p() as nat);
        }
        let mut i: u64 = 0;
        while i <= max_degree as u64
            invariant
                secret.wf(),
                cur.wf(),
                i <= max_degree + 1,
                powers@.len() == i,
                all_wf(powers@),
                cur.val() == pow(secret.val(), i as nat) % fr_p(),
                forall|j: int|
                    0 <= j < i ==> (#[trigger] powers@[j]).val() == pow(secret.val(), j as nat)
                        % fr_p(),
            decreases max_degree + 1 - i,
        {
            powers.push(cur);
            let ghost xv = cur.val();
            cur = cur.mul(secret);
            proof {
                crate::fr::lemma_pow_mul_pub(secret.val(), xv, i as nat);
            }
            i = i + 1;
        }
        KeyPair { max_degree, powers }
    }

    /// Commits to a polynomial: the inner product of its coefficients
    /// with the reference string.
    pub fn commit(&self, p: &Polynomial) -> (r: Fr)
        requires
            self.wf(),
            p.wf(),
            p.0@.len() <= self.max_degree + 1,
        ensures
            r.wf(),
            r.val() == inner_v(vals(p.0@), vals(self.powers@)),
    {
        let mut acc = Fr::zero();
        let n = p.0.len();
        let mut i: usize = n;
        proof {
            crate::fr::lemma_fr_nontrivial();
        }
        while i > 0
            invariant
                self.wf(),
                p.wf(),
                n == p.0@.len(),
                n <= self.max_degree + 1,
                i <= n,
                acc.wf(),
                acc.val() == inner_v(vals(p.0@).skip(i as int), vals(self.powers@).skip(i as int)),
            decreases i,
        {
            i = i - 1;
            let ghost av = acc.val();
            let term = p.0[i].mul(self.powers[i]);
            acc = term.add(acc);
            proof {
                lemma_inner_step(vals(p.0@), vals(self.powers@), i as int, av, acc.val());
            }
        }
        proof {
            assert(vals(p.0@).skip(0) =~= vals(p.0@));
            assert(vals(self.powers@).skip(0) =~= vals(self.powers@));
        }
        acc
    }
}

/// Peeling one term off the inner product.
proof fn lemma_inner_step(c: Seq<int>, k: Seq<int>, i: int, acc: int, out: int)
    requires
        0 <= i < c.len(),
        c.len() <= k.len(),
        acc == inner_v(c.skip(i + 1), k.skip(i + 1)),
        out == (c[i] * k[i] % fr_p() + acc) % fr_p(),
    ensures
        out == inner_v(c.skip(i), k.skip(i)),
{
    assert(c.skip(i).skip(1) =~= c.skip(i + 1));
    assert(k.skip(i).skip(1) =~= k.skip(i + 1));
    assert(c.skip(i)[0] == c[i]);
    assert(k.skip(i)[0] == k[i]);
}

/// Evaluates a polynomial at a point, Horner style.
pub fn eval_at(p: &Polynomial, x: Fr) -> (r: Fr)
    requires
        p.wf(),
        x.wf(),
    ensures
        r.wf(),
        r.val() == poly_eval_v(vals(p.0@), x.val()),
{
    let mut acc = Fr::zero();
    let n = p.0.len();
    let mut i: usize = n;
    proof {
        crate::fr::lemma_fr_nontrivial();
    }
    while i > 0
        invariant
            p.wf(),
            x.wf(),
            n == p.0@.len(),
            i <= n,
            acc.wf(),
            acc.val() == poly_eval_v(vals(p.0@).skip(i as int), x.val()),
        decreases i,
    {
        i = i - 1;
        let ghost av = acc.val();
        let scaled = x.mul(acc);
        acc = p.0[i].add(scaled);
        proof {
            lemma_eval_step(vals(p.0@), x.val(), i as int, av, acc.val());
        }
    }
    proof {
        assert(vals(p.0@).skip(0) =~= vals(p.0@));
    }
    acc
}

/// Peeling one coefficient off a Horner evaluation.
proof fn lemma_eval_step(c: Seq<int>, x: int, i: int, acc: int, out: int)
    requires
        0 <= i < c.len(),
        acc == poly_eval_v(c.skip(i + 1), x),
        out == (c[i] + x * acc % fr_p()) % fr_p(),
    ensures
        out == poly_eval_v(c.skip(i), x),
{
    crate::fr::lemma_fr_nontrivial();
    assert(c.skip(i).skip(1) =~= c.skip(i + 1));
    assert(c.skip(i)[0] == c[i]);
    lemma_mod_bound(poly_eval_v(c.skip(i + 1), x), fr_p());
    lemma_mul_mod_noop_right(x, poly_eval_v(c.skip(i + 1), x), fr_p());
    lemma_add_mod_noop_right(c[i], x * poly_eval_v(c.skip(i + 1), x), fr_p());
}

} // verus!
