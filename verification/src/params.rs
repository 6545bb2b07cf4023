//! Parameters of one SimplePIR instance. The ciphertext modulus is fixed at
//! `q = 2^64`; the plaintext modulus is `p = 2^mod_power` for a caller-chosen
//! exponent, so the scaling factor `delta = q / p` is exact and
//! `p * delta == q`.
use crate::ring::{q_int, Q128};
use crate::rng::entropy_u64;
use vstd::arithmetic::div_mod::{lemma_mod_self_0, lemma_small_mod};
use vstd::arithmetic::power2::{
    lemma2_to64, lemma2_to64_rest, lemma_pow2_adds, lemma_pow2_pos, lemma_pow2_strictly_increases,
    lemma_pow2_subtracts, pow2,
};
use vstd::bits::lemma_u64_shl_is_mul;
use vstd::prelude::*;

verus! {

/// Immutable parameters of one database instance.
#[derive(Clone, Copy, Debug)]
pub struct SimplePIRParams {
    /// The LWE secret dimension.
    pub n: usize,
    /// The number of samples; equals the database matrix height.
    pub m: usize,
    /// The plaintext modulus exponent: `p = 2^mod_power`.
    pub mod_power: u32,
    /// Deterministically regenerates the public matrix `A`.
    pub seed: u64,
}

impl SimplePIRParams {
    /// Well-formed: non-degenerate dimensions and a plaintext modulus
    /// between 2 and `q`.
    pub open spec fn wf(&self) -> bool {
        &&& self.m >= 1
        &&& self.n >= 1
        &&& 1 <= self.mod_power <= 64
    }

    /// The plaintext modulus `p = 2^mod_power`.
    pub open spec fn p_int(&self) -> int {
        pow2(self.mod_power as nat) as int
    }

    /// The scaling factor `delta = q / p = 2^(64 - mod_power)`.
    pub open spec fn delta_int(&self) -> int {
        pow2((64 - self.mod_power) as nat) as int
    }

    /// The basic relations between `p`, `delta` and `q`.
    pub proof fn lemma_p_delta(&self)
        requires
            self.wf(),
        ensures
            2 <= self.p_int() <= q_int(),
            1 <= self.delta_int() <= q_int() / 2,
            self.p_int() * self.delta_int() == q_int(),
    {
        let k = self.mod_power as nat;
        lemma2_to64();
        lemma2_to64_rest();
        lemma_pow2_adds(k, (64 - k) as nat);
        lemma_pow2_pos(k);
        lemma_pow2_pos((64 - k) as nat);
        if k < 64 {
            lemma_pow2_strictly_increases(k, 64);
        }
        if k > 1 {
            lemma_pow2_strictly_increases(1, k);
            lemma_pow2_strictly_increases((64 - k) as nat, 63);
        }
    }

    /// The ciphertext modulus `q = 2^64`.
    pub fn q(&self) -> (r: u128)
        ensures
            r == q_int(),
    {
        Q128
    }

    /// The scaling factor as a word; `delta <= 2^63`, so it always fits.
    pub fn delta(&self) -> (r: u64)
        requires
            self.wf(),
        ensures
            r == self.delta_int(),
    {
        let sh: u64 = (64 - self.mod_power) as u64;
        proof {
            lemma2_to64();
            lemma_pow2_strictly_increases(sh as nat, 64);
            lemma_u64_shl_is_mul(1u64, sh);
        }
        1u64 << sh
    }

    /// The plaintext modulus `p`; may equal `q = 2^64`, hence 128 bits.
    pub fn p(&self) -> (r: u128)
        requires
            self.wf(),
        ensures
            r == self.p_int(),
    {
        let d = self.delta();
        proof {
            self.lemma_p_delta();
            lemma_pow2_subtracts((64 - self.mod_power) as nat, 64);
            lemma2_to64();
        }
        Q128 / (d as u128)
    }

    /// The residue of `p` modulo `q`: zero exactly when `p == q`.
    pub fn p_mod_q(&self) -> (r: u64)
        requires
            self.wf(),
        ensures
            r == self.p_int() % q_int(),
    {
        proof {
            self.lemma_p_delta();
            lemma2_to64();
        }
        if self.mod_power == 64 {
            proof {
                lemma_mod_self_0(q_int());
            }
            0
        } else {
            proof {
                lemma_pow2_strictly_increases(self.mod_power as nat, 64);
                lemma_small_mod(pow2(self.mod_power as nat), q_int() as nat);
                lemma_u64_shl_is_mul(1u64, self.mod_power as u64);
            }
            1u64 << (self.mod_power as u64)
        }
    }

    /// Half the plaintext modulus, the bound between the non-negative and
    /// the re-centered negative plaintext range.
    pub fn half_p(&self) -> (r: u64)
        requires
            self.wf(),
        ensures
            r == self.p_int() / 2,
    {
        let sh: u64 = (self.mod_power - 1) as u64;
        proof {
            lemma2_to64();
            lemma_pow2_strictly_increases(sh as nat, 64);
            lemma_u64_shl_is_mul(1u64, sh);
            lemma_pow2_subtracts(1, self.mod_power as nat);
        }
        1u64 << sh
    }
}

/// Allocates the parameters of a fresh database instance: `q = 2^64`,
/// `p = 2^mod_power`, and a seed drawn from system entropy.
pub fn gen_params(m: usize, n: usize, mod_power: u32) -> (r: SimplePIRParams)
    requires
        m >= 1,
        n >= 1,
        1 <= mod_power <= 64,
    ensures
        r.wf(),
        r.m == m,
        r.n == n,
        r.mod_power == mod_power,
{
    let seed = entropy_u64();
    SimplePIRParams { n, m, mod_power, seed }
}

} // verus!
