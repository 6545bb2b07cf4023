//! Arithmetic in the ring of integers modulo `q = 2^64`, the ciphertext
//! modulus shared by every PIR instance. A residue is stored as a `u64`, so
//! every bit pattern is a valid residue and the representative is always the
//! non-negative one.
use vstd::arithmetic::div_mod::{
    lemma_add_mod_noop, lemma_mod_bound, lemma_mod_twice, lemma_mul_mod_noop_general,
    lemma_small_mod, lemma_sub_mod_noop,
};
use vstd::prelude::*;

verus! {

/// The ciphertext modulus `q = 2^64` as a mathematical integer.
pub open spec fn q_int() -> int {
    0x1_0000_0000_0000_0000
}

/// `q` as an executable 128-bit constant.
pub const Q128: u128 = 0x1_0000_0000_0000_0000;

/// The non-negative residue of an arbitrary integer modulo `q`.
pub open spec fn residue(x: int) -> int {
    x % q_int()
}

/// `(x % q + y) % q == (x + y) % q`: a partial sum may be reduced early.
pub proof fn lemma_mod_add_left(x: int, y: int)
    ensures
        (x % q_int() + y) % q_int() == (x + y) % q_int(),
{
    let q = q_int();
    lemma_mod_twice(x, q);
    lemma_add_mod_noop(x % q, y, q);
    lemma_add_mod_noop(x, y, q);
}

/// `(x - y % q) % q == (x - y) % q`.
pub proof fn lemma_mod_sub_right(x: int, y: int)
    ensures
        (x - y % q_int()) % q_int() == (x - y) % q_int(),
{
    let q = q_int();
    lemma_mod_twice(y, q);
    lemma_sub_mod_noop(x, y % q, q);
    lemma_sub_mod_noop(x, y, q);
}

/// Congruent factors give congruent products: `(a'b') % q == (ab) % q`
/// whenever `a' ≡ a` and `b' ≡ b (mod q)`.
pub proof fn lemma_mod_mul_congruent(a: int, b: int, a2: int, b2: int)
    requires
        a % q_int() == a2 % q_int(),
        b % q_int() == b2 % q_int(),
    ensures
        (a * b) % q_int() == (a2 * b2) % q_int(),
{
    let q = q_int();
    lemma_mul_mod_noop_general(a, b, q);
    lemma_mul_mod_noop_general(a2, b2, q);
}

/// Adds two residues modulo `q`.
pub fn add_mod(a: u64, b: u64) -> (r: u64)
    ensures
        r == (a + b) % q_int(),
{
    let wide: u128 = a as u128 + b as u128;
    proof {
        lemma_mod_bound(wide as int, q_int());
    }
    (wide % Q128) as u64
}

/// Subtracts one residue from another modulo `q`, yielding the non-negative
/// representative.
pub fn sub_mod(a: u64, b: u64) -> (r: u64)
    ensures
        r == (a - b) % q_int(),
{
    let wide: u128 = Q128 + a as u128 - b as u128;
    proof {
        lemma_mod_bound(wide as int, q_int());
        lemma_mod_add_left(q_int(), a - b);
        lemma_small_mod(0nat, q_int() as nat);
        assert((q_int() + (a - b)) % q_int() == (a - b) % q_int()) by {
            lemma_add_mod_noop(q_int(), a - b, q_int());
            lemma_mod_twice(a - b, q_int());
        }
    }
    (wide % Q128) as u64
}

/// Multiplies two residues modulo `q`.
pub fn mul_mod(a: u64, b: u64) -> (r: u64)
    ensures
        r == (a * b) % q_int(),
{
    proof {
        assert(a as int * b as int <= (q_int() - 1) * (q_int() - 1)) by (nonlinear_arith)
            requires
                0 <= a < q_int(),
                0 <= b < q_int(),
        ;
    }
    let wide: u128 = a as u128 * b as u128;
    proof {
        lemma_mod_bound(wide as int, q_int());
    }
    (wide % Q128) as u64
}

/// One fused step of a modular dot product: `(acc + a * b) % q`.
pub fn mul_add_mod(acc: u64, a: u64, b: u64) -> (r: u64)
    ensures
        r == (acc + a * b) % q_int(),
{
    proof {
        assert(a as int * b as int <= (q_int() - 1) * (q_int() - 1)) by (nonlinear_arith)
            requires
                0 <= a < q_int(),
                0 <= b < q_int(),
        ;
    }
    let wide: u128 = acc as u128 + a as u128 * b as u128;
    proof {
        lemma_mod_bound(wide as int, q_int());
    }
    (wide % Q128) as u64
}

/// The residue of a signed 64-bit value: negative values wrap to the top of
/// the range, matching two's-complement reinterpretation.
pub fn residue_i64(x: i64) -> (r: u64)
    ensures
        r == residue(x as int),
{
    if x >= 0 {
        proof {
            lemma_small_mod(x as nat, q_int() as nat);
        }
        x as u64
    } else {
        let mag: u64 = (-(x as i128)) as u64;
        let wide: u128 = Q128 - mag as u128;
        proof {
            assert(wide == q_int() + x);
            lemma_small_mod(wide as nat, q_int() as nat);
            assert((q_int() + x) % q_int() == (x as int) % q_int()) by {
                lemma_add_mod_noop(q_int(), x as int, q_int());
                lemma_mod_twice(x as int, q_int());
                lemma_small_mod(0nat, q_int() as nat);
            }
        }
        wide as u64
    }
}

} // verus!
