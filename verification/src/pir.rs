//! The SimplePIR primitive: public-matrix generation, hint computation,
//! LWE encryption of a query vector, the server's matrix-vector response,
//! and recovery with rounding and re-centering.
use crate::matrix::{col_of, dot_int, dot_mod, Matrix, Vector};
use crate::noise::{sample_noise, NOISE_BOUND};
use crate::params::SimplePIRParams;
use crate::ring::{
    add_mod, lemma_mod_add_left, lemma_mod_mul_congruent, lemma_mod_sub_right, mul_add_mod,
    mul_mod, q_int, sub_mod, Q128,
};
use crate::rng::{chacha_stream, chacha_words, entropy_words};
use vstd::arithmetic::div_mod::{
    lemma_add_mod_noop, lemma_fundamental_div_mod, lemma_mod_bound, lemma_mod_twice,
};
use vstd::prelude::*;

verus! {

/// The public matrix derived from `seed`: `m` rows of `n` words, filled
/// row-major from the seeded ChaCha20 stream. A pure function of its
/// arguments: regenerating with the same seed gives the same matrix.
pub open spec fn a_matrix_spec(seed: u64, m: nat, n: nat) -> Seq<Seq<u64>> {
    Seq::new(m, |i: int| Seq::new(n, |j: int| chacha_stream(seed, m * n)[i * n + j]))
}

/// Samples the `m x n` public matrix `A` from the stream seeded with `seed`.
/// Deterministic: the result is fixed by `(seed, m, n)` alone. The modulus
/// `q` is fixed at `2^64`, which every 64-bit word already respects.
pub fn gen_matrix_a(seed: u64, m: usize, n: usize, q: u128) -> (a: Matrix)
    requires
        m >= 1,
        n >= 1,
        m * n <= usize::MAX,
        q == q_int(),
    ensures
        a.wf(),
        a.spec_rows() == m,
        a.spec_cols() == n,
        a@ == a_matrix_spec(seed, m as nat, n as nat),
{
    proof {
        assert(m * n >= 1 * 1) by (nonlinear_arith)
            requires
                m >= 1,
                n >= 1,
        ;
    }
    let count: usize = m * n;
    let words = chacha_words(seed, count);
    let mut data: Vec<Vec<u64>> = Vec::new();
    let mut i: usize = 0;
    while i < m
        invariant
            i <= m,
            m >= 1,
            n >= 1,
            count == m * n,
            count <= usize::MAX,
            words@ == chacha_stream(seed, (m * n) as nat),
            words@.len() == count,
            data@.len() == i,
            forall|k: int| 0 <= k < i ==> (#[trigger] data@[k])@.len() == n,
            forall|k: int, j: int|
                0 <= k < i && 0 <= j < n ==> data@[k]@[j] == words@[k * n + j],
        decreases m - i,
    {
        let mut row: Vec<u64> = Vec::new();
        let mut j: usize = 0;
        while j < n
            invariant
                j <= n,
                i < m,
                n >= 1,
                count == m * n,
                count <= usize::MAX,
                words@.len() == count,
                row@.len() == j,
                forall|t: int| 0 <= t < j ==> row@[t] == words@[i * n + t],
            decreases n - j,
        {
            proof {
                assert(i * n + j < m * n) by (nonlinear_arith)
                    requires
                        i < m,
                        j < n,
                ;
            }
            let idx: usize = i * n + j;
            row.push(words[idx]);
            j = j + 1;
        }
        data.push(row);
        i = i + 1;
    }
    let a = Matrix { data };
    proof {
        let spec = a_matrix_spec(seed, m as nat, n as nat);
        assert forall|k: int| 0 <= k < m implies a@[k] =~= spec[k] by {
            assert(a@[k].len() == n);
        }
        assert(a@ =~~= spec);
    }
    a
}

/// Samples a secret vector of length `n`, uniform over all residues: from
/// the deterministic seeded stream when a seed is given, from system
/// entropy otherwise.
pub fn gen_secret(n: usize, seed: Option<u64>) -> (s: Vector)
    requires
        n >= 1,
    ensures
        s@.len() == n,
        match seed {
            Some(x) => s@ == chacha_stream(x, n as nat),
            None => true,
        },
{
    match seed {
        Some(x) => Vector::new(chacha_words(x, n)),
        None => Vector::new(entropy_words(n)),
    }
}

/// Regenerates `A` from the parameters' seed and computes the hint
/// `H = D * A mod q`. The server publishes both.
pub fn gen_hint(params: &SimplePIRParams, db: &Matrix) -> (r: (Matrix, Matrix))
    requires
        params.wf(),
        db.wf(),
        db.spec_cols() == params.m,
        params.m * params.n <= usize::MAX,
    ensures
        r.1.wf(),
        r.1.spec_rows() == params.m,
        r.1.spec_cols() == params.n,
        r.1@ == a_matrix_spec(params.seed, params.m as nat, params.n as nat),
        r.0.wf(),
        r.0.spec_rows() == db.spec_rows(),
        r.0.spec_cols() == params.n,
        forall|i: int, j: int|
            0 <= i < r.0@.len() && 0 <= j < r.0@[0].len() ==> r.0@[i][j] == dot_mod(
                db@[i],
                col_of(r.1@, j),
            ),
{
    let a = gen_matrix_a(params.seed, params.m, params.n, Q128);
    let hint = db.mul(&a);
    (hint, a)
}

/// Noise vectors: `m` rounded Gaussian samples, each within the sampler's
/// bound.
pub open spec fn is_noise(eta: Seq<int>, m: nat) -> bool {
    &&& eta.len() == m
    &&& forall|i: int| 0 <= i < m ==> -NOISE_BOUND <= #[trigger] eta[i] <= NOISE_BOUND
}

/// Entry `i` of a ciphertext: `A[i]·s + eta[i]·p + delta·v[i]`, reduced
/// modulo `q`.
pub open spec fn cipher_entry(
    params: SimplePIRParams,
    v: Seq<u64>,
    a: Seq<Seq<u64>>,
    s: Seq<u64>,
    eta: Seq<int>,
    i: int,
) -> int {
    (dot_int(a[i], s, s.len() as int) + eta[i] * params.p_int() + params.delta_int() * v[i])
        % q_int()
}

/// `c` is the encryption of `v` under secret `s` and noise `eta`.
pub open spec fn is_cipher_of(
    params: SimplePIRParams,
    v: Seq<u64>,
    a: Seq<Seq<u64>>,
    s: Seq<u64>,
    eta: Seq<int>,
    c: Seq<u64>,
) -> bool {
    &&& c.len() == params.m
    &&& forall|i: int|
        0 <= i < c.len() ==> c[i] == cipher_entry(params, v, a, s, eta, i)
}

/// Dot product of a matrix row with a vector, reduced after every step.
fn dot_row(row: &Vec<u64>, v: &Vector) -> (r: u64)
    requires
        row@.len() == v@.len(),
    ensures
        r == dot_mod(row@, v@),
{
    let n = row.len();
    let mut acc: u64 = 0;
    let mut t: usize = 0;
    while t < n
        invariant
            t <= n,
            n == row@.len() == v@.len(),
            acc == dot_int(row@, v@, t as int) % q_int(),
        decreases n - t,
    {
        proof {
            lemma_mod_add_left(dot_int(row@, v@, t as int), row@[t as int] * v@[t as int]);
        }
        acc = mul_add_mod(acc, row[t], v.data[t]);
        t = t + 1;
    }
    acc
}

/// Encrypts `v` as `c = A·s + e + delta·v (mod q)`, where each noise entry
/// is an independent rounded Gaussian sample multiplied by `p`. The noise is
/// random: the contract promises a ciphertext of this form for *some*
/// bounded noise vector.
pub fn encrypt(params: &SimplePIRParams, v: &Vector, a: &Matrix, s: &Vector) -> (c: Vector)
    requires
        params.wf(),
        a.wf(),
        a.spec_rows() == params.m,
        a.spec_cols() == params.n,
        v@.len() == params.m,
        s@.len() == params.n,
    ensures
        c@.len() == params.m,
        exists|eta: Seq<int>|
            is_noise(eta, params.m as nat) && #[trigger] is_cipher_of(
                *params,
                v@,
                a@,
                s@,
                eta,
                c@,
            ),
{
    let m = params.m;
    let delta = params.delta();
    let p_mod = params.p_mod_q();
    let noise_words = entropy_words(m);
    let ghost mut eta: Seq<int> = Seq::empty();
    let mut data: Vec<u64> = Vec::new();
    let mut i: usize = 0;
    while i < m
        invariant
            i <= m,
            m == params.m,
            params.wf(),
            a.wf(),
            a.spec_rows() == params.m,
            a.spec_cols() == params.n,
            v@.len() == params.m,
            s@.len() == params.n,
            delta == params.delta_int(),
            p_mod == params.p_int() % q_int(),
            noise_words@.len() == m,
            eta.len() == i,
            forall|k: int| 0 <= k < i ==> -NOISE_BOUND <= #[trigger] eta[k] <= NOISE_BOUND,
            data@.len() == i,
            forall|k: int|
                0 <= k < i ==> data@[k] == cipher_entry(*params, v@, a@, s@, eta, k),
        decreases m - i,
    {
        proof {
            assert(a@[i as int].len() == a.spec_cols());
        }
        let as_i = dot_row(&a.data[i], s);
        let eta_i: i64 = sample_noise(noise_words[i]);
        let e_val: u64 = if eta_i >= 0 {
            let r = mul_mod(eta_i as u64, p_mod);
            proof {
                lemma_mod_twice(params.p_int(), q_int());
                lemma_mod_mul_congruent(
                    eta_i as int,
                    p_mod as int,
                    eta_i as int,
                    params.p_int(),
                );
            }
            r
        } else {
            let mag: u64 = (-(eta_i as i128)) as u64;
            let r = sub_mod(0, mul_mod(mag, p_mod));
            proof {
                lemma_mod_sub_right(0, mag as int * p_mod as int);
                lemma_mod_twice(params.p_int(), q_int());
                lemma_mod_mul_congruent(
                    -(mag as int),
                    p_mod as int,
                    eta_i as int,
                    params.p_int(),
                );
                assert((0 - mag as int * p_mod as int) == (-(mag as int)) * (p_mod as int))
                    by (nonlinear_arith);
            }
            r
        };
        let sv = mul_mod(delta, v.data[i]);
        proof {
            assert(sv == (params.delta_int() * v@[i as int]) % q_int());
        }
        let partial = add_mod(as_i, e_val);
        let c_i = add_mod(partial, sv);
        proof {
            let big_d = dot_int(a@[i as int], s@, s@.len() as int);
            let big_e = eta_i as int * params.p_int();
            let big_s = params.delta_int() * v@[i as int];
            lemma_add_mod_noop(big_d, big_e, q_int());
            lemma_add_mod_noop(big_d + big_e, big_s, q_int());
            lemma_mod_twice(big_d + big_e, q_int());
            assert(c_i == (big_d + big_e + big_s) % q_int());
            eta = eta.push(eta_i as int);
            assert(data@.push(c_i as u64)[i as int] == cipher_entry(
                *params,
                v@,
                a@,
                s@,
                eta,
                i as int,
            ));
        }
        data.push(c_i);
        i = i + 1;
    }
    let c = Vector { data };
    proof {
        assert(is_noise(eta, params.m as nat));
        assert(is_cipher_of(*params, v@, a@, s@, eta, c@));
    }
    c
}

/// Samples a fresh uniform secret and encrypts `v` with it, returning the
/// pair `(s, c)`. The query vector must already have length `m`.
pub fn generate_query(params: &SimplePIRParams, v: &Vector, a: &Matrix) -> (r: (Vector, Vector))
    requires
        params.wf(),
        a.wf(),
        a.spec_rows() == params.m,
        a.spec_cols() == params.n,
        v@.len() == params.m,
    ensures
        r.0@.len() == params.n,
        r.1@.len() == params.m,
        exists|eta: Seq<int>|
            is_noise(eta, params.m as nat) && #[trigger] is_cipher_of(
                *params,
                v@,
                a@,
                r.0@,
                eta,
                r.1@,
            ),
{
    let s = gen_secret(params.n, None);
    let c = encrypt(params, v, a, &s);
    (s, c)
}

/// The server's answer: `r = D * c mod q`. Pure linear algebra, no
/// cryptographic state.
pub fn process_query(db: &Matrix, query: &Vector, q: u128) -> (r: Vector)
    requires
        db.wf(),
        query@.len() == db.spec_cols(),
        q == q_int(),
    ensures
        r@.len() == db.spec_rows(),
        forall|i: int| 0 <= i < r@.len() ==> r@[i] == dot_mod(db@[i], query@),
{
    db.mul_vec(query)
}

/// The centered representative of a decoded value: raw values at or above
/// `p/2` wrap down to the negative range `[-p/2, 0)`.
pub open spec fn centered(raw: int, p: int) -> int {
    if raw >= p / 2 {
        raw - p
    } else {
        raw
    }
}

/// Entry `i` recovered from an answer: subtract `H[i]·s`, divide by `delta`,
/// and re-center.
pub open spec fn recover_entry(
    hint: Seq<Seq<u64>>,
    s: Seq<u64>,
    answer: Seq<u64>,
    params: SimplePIRParams,
    i: int,
) -> int {
    let t = dot_mod(hint[i], s);
    let diff = (answer[i] - t) % q_int();
    centered(diff / params.delta_int(), params.p_int())
}

/// Recovers the plaintext vector from the server's answer: for each entry,
/// `y[i] = centered(((answer[i] - H[i]·s) mod q) / delta)`, a signed value
/// in `[-p/2, p/2)`.
pub fn recover(hint: &Matrix, s: &Vector, answer: &Vector, params: &SimplePIRParams) -> (y: Vec<
    i64,
>)
    requires
        params.wf(),
        hint.wf(),
        hint.spec_rows() == answer@.len(),
        hint.spec_cols() == s@.len(),
    ensures
        y@.len() == answer@.len(),
        forall|i: int|
            0 <= i < y@.len() ==> y@[i] == recover_entry(hint@, s@, answer@, *params, i),
{
    let len = answer.len();
    let delta = params.delta();
    let half = params.half_p();
    let p = params.p();
    proof {
        params.lemma_p_delta();
    }
    let mut y: Vec<i64> = Vec::new();
    let mut i: usize = 0;
    while i < len
        invariant
            i <= len,
            params.wf(),
            hint.wf(),
            len == answer@.len() == hint.spec_rows(),
            hint.spec_cols() == s@.len(),
            delta == params.delta_int(),
            half == params.p_int() / 2,
            p == params.p_int(),
            params.p_int() * params.delta_int() == q_int(),
            delta >= 1,
            2 <= params.p_int() <= q_int(),
            y@.len() == i,
            forall|k: int|
                0 <= k < i ==> y@[k] == recover_entry(hint@, s@, answer@, *params, k),
        decreases len - i,
    {
        proof {
            assert(hint@[i as int].len() == hint.spec_cols());
        }
        let t_i = dot_row(&hint.data[i], s);
        let diff = sub_mod(answer.data[i], t_i);
        let raw: u64 = diff / delta;
        proof {
            lemma_mod_bound(answer@[i as int] - dot_mod(hint@[i as int], s@), q_int());
            lemma_fundamental_div_mod(diff as int, delta as int);
            assert(raw < p) by (nonlinear_arith)
                requires
                    delta * raw <= diff,
                    diff < p * delta,
                    delta > 0,
                    raw >= 0,
            ;
        }
        let y_i: i64 = if raw >= half {
            proof {
                assert(i64::MIN <= raw - p < 0);
            }
            (raw as i128 - p as i128) as i64
        } else {
            proof {
                assert(0 <= raw < p / 2 <= i64::MAX + 1);
            }
            raw as i64
        };
        proof {
            assert(y_i == centered(raw as int, p as int));
            assert(y_i == recover_entry(hint@, s@, answer@, *params, i as int));
        }
        y.push(y_i);
        i = i + 1;
    }
    y
}


/// The full hint matrix `H = D * A mod q`, row by row.
pub open spec fn hint_matrix_spec(data: Seq<Seq<u64>>, a: Seq<Seq<u64>>) -> Seq<Seq<u64>> {
    Seq::new(
        data.len(),
        |i: int| Seq::new(a[0].len(), |j: int| dot_mod(data[i], col_of(a, j)) as u64),
    )
}

/// The server's full answer `D * c mod q`.
pub open spec fn answer_spec(data: Seq<Seq<u64>>, c: Seq<u64>) -> Seq<u64> {
    Seq::new(data.len(), |i: int| dot_mod(data[i], c) as u64)
}

/// Everything one PIR round computes against database `data` under
/// `params`: encrypt `v` with secret `s` and noise `eta`, let the server
/// apply the matrix, and recover from the hint.
pub open spec fn round_output(
    params: SimplePIRParams,
    data: Seq<Seq<u64>>,
    v: Seq<u64>,
    s: Seq<u64>,
    eta: Seq<int>,
) -> Seq<int> {
    let a = a_matrix_spec(params.seed, params.m as nat, params.n as nat);
    let c = Seq::new(params.m as nat, |i: int| cipher_entry(params, v, a, s, eta, i) as u64);
    let ans = answer_spec(data, c);
    let h = hint_matrix_spec(data, a);
    Seq::new(data.len(), |i: int| recover_entry(h, s, ans, params, i))
}

} // verus!
