//! Correctness of the PIR round: with the homomorphic identity
//! `D·c − H·s ≡ delta·(D·v) + p·(D·eta) (mod q)` and the rounding step,
//! recovery returns the true product `D·v` up to a noise term, exactly
//! bounded. The statements are over signed integer values; the executable
//! code works on their residues.
use crate::matrix::{col_of, dot_int, dot_mod};
use crate::params::SimplePIRParams;
use crate::pir::{
    a_matrix_spec, answer_spec, centered, cipher_entry, hint_matrix_spec, recover_entry,
    round_output,
};
use crate::ring::{lemma_mod_mul_congruent, q_int};
use vstd::arithmetic::div_mod::{
    lemma_add_mod_noop, lemma_div_is_ordered, lemma_div_multiples_vanish,
    lemma_fundamental_div_mod, lemma_hoist_over_denominator, lemma_mod_bound, lemma_mod_twice,
    lemma_sub_mod_noop,
};
use vstd::prelude::*;

verus! {

/// The exact (unreduced) dot product of the first `n` positions of two
/// integer sequences.
pub open spec fn sdot(a: Seq<int>, b: Seq<int>, n: int) -> int
    decreases n,
{
    if n <= 0 {
        0
    } else {
        sdot(a, b, n - 1) + a[n - 1] * b[n - 1]
    }
}

/// A residue sequence as mathematical integers.
pub open spec fn to_int(x: Seq<u64>) -> Seq<int> {
    x.map_values(|v: u64| v as int)
}

/// `x` holds the residues of the signed values `xs`, position by position.
pub open spec fn residues_of(x: Seq<u64>, xs: Seq<int>, n: int) -> bool {
    forall|k: int| 0 <= k < n ==> #[trigger] x[k] == xs[k] % q_int()
}

/// A dot product of residues equals, modulo `q`, the dot product of any
/// integers they represent.
pub proof fn lemma_dot_congruence(x: Seq<u64>, xs: Seq<int>, y: Seq<u64>, ys: Seq<int>, n: int)
    requires
        residues_of(x, xs, n),
        residues_of(y, ys, n),
    ensures
        dot_int(x, y, n) % q_int() == sdot(xs, ys, n) % q_int(),
    decreases n,
{
    let q = q_int();
    if n > 0 {
        lemma_dot_congruence(x, xs, y, ys, n - 1);
        lemma_mod_twice(xs[n - 1], q);
        lemma_mod_twice(ys[n - 1], q);
        lemma_mod_mul_congruent(x[n - 1] as int, y[n - 1] as int, xs[n - 1], ys[n - 1]);
        lemma_add_mod_noop(dot_int(x, y, n - 1), x[n - 1] as int * y[n - 1] as int, q);
        lemma_add_mod_noop(sdot(xs, ys, n - 1), xs[n - 1] * ys[n - 1], q);
    }
}

/// Congruent factors position by position give congruent dot products.
pub proof fn lemma_sdot_congruence(a1: Seq<int>, a2: Seq<int>, b1: Seq<int>, b2: Seq<int>, n: int)
    requires
        forall|k: int| 0 <= k < n ==> #[trigger] a1[k] % q_int() == a2[k] % q_int(),
        forall|k: int| 0 <= k < n ==> #[trigger] b1[k] % q_int() == b2[k] % q_int(),
    ensures
        sdot(a1, b1, n) % q_int() == sdot(a2, b2, n) % q_int(),
    decreases n,
{
    let q = q_int();
    if n > 0 {
        lemma_sdot_congruence(a1, a2, b1, b2, n - 1);
        lemma_mod_mul_congruent(a1[n - 1], b1[n - 1], a2[n - 1], b2[n - 1]);
        lemma_add_mod_noop(sdot(a1, b1, n - 1), a1[n - 1] * b1[n - 1], q);
        lemma_add_mod_noop(sdot(a2, b2, n - 1), a2[n - 1] * b2[n - 1], q);
    }
}

/// A dot product with a pointwise sum splits into two dot products.
pub proof fn lemma_sdot_add_right(a: Seq<int>, x: Seq<int>, y: Seq<int>, z: Seq<int>, n: int)
    requires
        forall|k: int| 0 <= k < n ==> #[trigger] z[k] == x[k] + y[k],
    ensures
        sdot(a, z, n) == sdot(a, x, n) + sdot(a, y, n),
    decreases n,
{
    if n > 0 {
        lemma_sdot_add_right(a, x, y, z, n - 1);
        assert(a[n - 1] * z[n - 1] == a[n - 1] * x[n - 1] + a[n - 1] * y[n - 1])
            by (nonlinear_arith)
            requires
                z[n - 1] == x[n - 1] + y[n - 1],
        ;
    }
}

/// A common factor in the right operand hoists out of the dot product.
pub proof fn lemma_sdot_scale_right(a: Seq<int>, x: Seq<int>, y: Seq<int>, c: int, n: int)
    requires
        forall|k: int| 0 <= k < n ==> #[trigger] y[k] == c * x[k],
    ensures
        sdot(a, y, n) == c * sdot(a, x, n),
    decreases n,
{
    if n <= 0 {
    } else {
        lemma_sdot_scale_right(a, x, y, c, n - 1);
        assert(sdot(a, y, n - 1) + a[n - 1] * y[n - 1] == c * (sdot(a, x, n - 1) + a[n - 1] * x[n
            - 1])) by (nonlinear_arith)
            requires
                sdot(a, y, n - 1) == c * sdot(a, x, n - 1),
                y[n - 1] == c * x[n - 1],
        ;
    }
}

/// A dot product against zeros vanishes.
pub proof fn lemma_sdot_zero_right(a: Seq<int>, z: Seq<int>, n: int)
    requires
        forall|k: int| 0 <= k < n ==> #[trigger] z[k] == 0,
    ensures
        sdot(a, z, n) == 0,
    decreases n,
{
    if n > 0 {
        lemma_sdot_zero_right(a, z, n - 1);
    }
}

/// A dot product against a one-hot vector picks out one entry.
pub proof fn lemma_sdot_unit_right(a: Seq<int>, u: Seq<int>, j: int, n: int)
    requires
        0 <= j < n,
        forall|k: int|
            0 <= k < n ==> #[trigger] u[k] == (if k == j {
                1int
            } else {
                0int
            }),
    ensures
        sdot(a, u, n) == a[j],
    decreases n,
{
    if j == n - 1 {
        lemma_sdot_zero_right(a, u, n - 1);
    } else {
        lemma_sdot_unit_right(a, u, j, n - 1);
    }
}

/// Summation order swaps: a row dotted with the matrix-vector products
/// equals the row-times-matrix vector dotted with the vector.
pub proof fn lemma_sdot_swap(
    d_row: Seq<int>,
    a: Seq<Seq<u64>>,
    s: Seq<u64>,
    m: int,
    n: int,
)
    requires
        0 <= m <= a.len(),
        0 <= n <= s.len(),
        forall|j: int| 0 <= j < m ==> n <= (#[trigger] a[j]).len(),
    ensures
        sdot(d_row, Seq::new(m as nat, |j: int| dot_int(a[j], s, n)), m) == sdot(
            Seq::new(n as nat, |t: int| sdot(d_row, to_int(col_of(a, t)), m)),
            to_int(s),
            n,
        ),
    decreases n,
{
    let lhs_seq = Seq::new(m as nat, |j: int| dot_int(a[j], s, n));
    let h = Seq::new(n as nat, |t: int| sdot(d_row, to_int(col_of(a, t)), m));
    if n == 0 {
        lemma_sdot_zero_right(d_row, lhs_seq, m);
    } else {
        let prev_seq = Seq::new(m as nat, |j: int| dot_int(a[j], s, n - 1));
        let last_col = Seq::new(m as nat, |j: int| a[j][n - 1] * s[n - 1]);
        lemma_sdot_add_right(d_row, prev_seq, last_col, lhs_seq, m);
        // the last column's contribution factors through s[n-1]
        let col_vals = Seq::new(m as nat, |j: int| a[j][n - 1] as int);
        assert forall|k: int| 0 <= k < m implies #[trigger] last_col[k] == (s[n - 1] as int)
            * col_vals[k] by {
            assert((a[k][n - 1] as int) * (s[n - 1] as int) == (s[n - 1] as int) * (a[k][n
                - 1] as int)) by (nonlinear_arith);
        }
        lemma_sdot_scale_right(d_row, col_vals, last_col, s[n - 1] as int, m);
        // the inner sum over the first n-1 positions, by induction
        lemma_sdot_swap(d_row, a, s, m, n - 1);
        let h_prev = Seq::new((n - 1) as nat, |t: int| sdot(d_row, to_int(col_of(a, t)), m));
        assert(forall|t: int| 0 <= t < n - 1 ==> #[trigger] h_prev[t] == h[t]);
        lemma_sdot_prefix(h_prev, h, to_int(s), n - 1);
        // the column values are the column sequence
        assert(col_vals =~= to_int(col_of(a, n - 1)).take(m)) by {
            assert forall|k: int| 0 <= k < m implies col_vals[k] == to_int(col_of(a, n - 1))[k]
                by {}
        }
        lemma_sdot_take(d_row, to_int(col_of(a, n - 1)), col_vals, m);
        assert(sdot(d_row, lhs_seq, m) == sdot(h, to_int(s), n - 1) + h[n - 1] * (s[n - 1] as int))
            by (nonlinear_arith)
            requires
                sdot(d_row, lhs_seq, m) == sdot(d_row, prev_seq, m) + sdot(d_row, last_col, m),
                sdot(d_row, last_col, m) == (s[n - 1] as int) * sdot(d_row, col_vals, m),
                sdot(d_row, col_vals, m) == h[n - 1],
                sdot(d_row, prev_seq, m) == sdot(h, to_int(s), n - 1),
        ;
    }
}

/// Two right operands that agree on the first `n` positions give the same
/// dot product.
proof fn lemma_sdot_prefix(x: Seq<int>, y: Seq<int>, b: Seq<int>, n: int)
    requires
        forall|k: int| 0 <= k < n ==> #[trigger] x[k] == y[k],
    ensures
        sdot(x, b, n) == sdot(y, b, n),
        sdot(b, x, n) == sdot(b, y, n),
    decreases n,
{
    if n > 0 {
        lemma_sdot_prefix(x, y, b, n - 1);
    }
}

/// A dot product only reads the first `n` positions of the right operand.
proof fn lemma_sdot_take(a: Seq<int>, full: Seq<int>, pref: Seq<int>, n: int)
    requires
        forall|k: int| 0 <= k < n ==> #[trigger] pref[k] == full[k],
    ensures
        sdot(a, full, n) == sdot(a, pref, n),
    decreases n,
{
    if n > 0 {
        lemma_sdot_take(a, full, pref, n - 1);
    }
}


/// The rounding step decodes exactly: if the plaintext plus the rounded
/// noise term stays inside the centered range `[-p/2, p/2)`, recovery
/// returns exactly that sum.
pub proof fn lemma_round_decode(params: SimplePIRParams, x: int, w: int)
    requires
        params.wf(),
        ({
            let p = params.p_int();
            let eps = (p * w) / params.delta_int();
            -p / 2 <= x + eps < p / 2
        }),
    ensures
        ({
            let p = params.p_int();
            let delta = params.delta_int();
            let eps = (p * w) / delta;
            centered(((delta * x + p * w) % q_int()) / delta, p) == x + eps
        }),
{
    params.lemma_p_delta();
    let p = params.p_int();
    let delta = params.delta_int();
    let q = q_int();
    let eps = (p * w) / delta;
    let target = x + eps;
    let z = delta * x + p * w;
    let diff = z % q;
    let kappa = z / q;
    lemma_fundamental_div_mod(z, q);
    lemma_mod_bound(z, q);
    // diff == delta * (x - p kappa) + p w
    assert(diff == delta * (x - p * kappa) + p * w) by (nonlinear_arith)
        requires
            z == q * kappa + diff,
            z == delta * x + p * w,
            q == p * delta,
    ;
    let raw = diff / delta;
    assert(raw == (x - p * kappa) + eps) by {
        lemma_hoist_over_denominator(p * w, x - p * kappa, delta as nat);
    }
    // raw lies in [0, p)
    lemma_fundamental_div_mod(diff, delta);
    assert(raw >= 0) by (nonlinear_arith)
        requires
            diff >= 0,
            delta > 0,
            diff == delta * raw + diff % delta,
            0 <= diff % delta < delta,
    ;
    assert(raw < p) by (nonlinear_arith)
        requires
            diff < p * delta,
            delta > 0,
            diff == delta * raw + diff % delta,
            0 <= diff % delta < delta,
    ;
    // the wrap count is 0 or -1
    assert(p * kappa == target - raw);
    if kappa >= 1 {
        assert(p * kappa >= p) by (nonlinear_arith)
            requires
                p >= 2,
                kappa >= 1,
        ;
        assert(false);
    }
    if kappa <= -2 {
        assert(p * kappa <= -2 * p) by (nonlinear_arith)
            requires
                p >= 2,
                kappa <= -2,
        ;
        assert(false);
    }
    if kappa == 0 {
        assert(p * kappa == 0) by (nonlinear_arith)
            requires
                kappa == 0,
        ;
        assert(raw == target);
        assert(centered(raw, p) == target);
    } else {
        assert(kappa == -1);
        assert(p * kappa == -p) by (nonlinear_arith)
            requires
                kappa == -1,
        ;
        assert(raw == target + p);
        assert(centered(raw, p) == target);
    }
}

/// The homomorphic identity behind recovery: the difference between the
/// server's answer and the hint contribution is
/// `delta*(D·v)[i] + p*(D·eta)[i]` modulo `q`, measured against any signed
/// values that the stored residues represent.
pub proof fn lemma_response_identity(
    params: SimplePIRParams,
    d: Seq<Seq<u64>>,
    ds: Seq<Seq<int>>,
    v: Seq<u64>,
    vs: Seq<int>,
    s: Seq<u64>,
    eta: Seq<int>,
    i: int,
)
    requires
        params.wf(),
        0 <= i < d.len(),
        d[i].len() == params.m,
        ds[i].len() == params.m,
        v.len() == params.m,
        vs.len() == params.m,
        s.len() == params.n,
        eta.len() == params.m,
        residues_of(d[i], ds[i], params.m as int),
        residues_of(v, vs, params.m as int),
    ensures
        ({
            let a = a_matrix_spec(params.seed, params.m as nat, params.n as nat);
            let c = Seq::new(
                params.m as nat,
                |j: int| cipher_entry(params, v, a, s, eta, j) as u64,
            );
            let h = hint_matrix_spec(d, a);
            let ans = answer_spec(d, c);
            let t = dot_mod(h[i], s);
            (ans[i] - t) % q_int() == (params.delta_int() * sdot(ds[i], vs, params.m as int)
                + params.p_int() * sdot(ds[i], eta, params.m as int)) % q_int()
        }),
{
    params.lemma_p_delta();
    let q = q_int();
    let m = params.m as int;
    let n = params.n as int;
    let p = params.p_int();
    let delta = params.delta_int();
    let a = a_matrix_spec(params.seed, params.m as nat, params.n as nat);
    let c = Seq::new(params.m as nat, |j: int| cipher_entry(params, v, a, s, eta, j) as u64);
    let h = hint_matrix_spec(d, a);
    let ans = answer_spec(d, c);
    let di = to_int(d[i]);
    let s_int = to_int(s);
    // the ciphertext entries are residues of exact integers
    let as_vec = Seq::new(m as nat, |j: int| dot_int(a[j], s, n));
    let w = Seq::new(m as nat, |j: int| eta[j] * p + delta * v[j]);
    let xs = Seq::new(m as nat, |j: int| as_vec[j] + w[j]);
    assert forall|j: int| 0 <= j < m implies #[trigger] c[j] == xs[j] % q by {
        assert(cipher_entry(params, v, a, s, eta, j) == (dot_int(a[j], s, n) + eta[j] * p + delta
            * v[j]) % q);
        lemma_mod_bound(dot_int(a[j], s, n) + eta[j] * p + delta * v[j], q);
    }
    assert forall|k: int| 0 <= k < m implies #[trigger] di[k] % q == di[k] by {
        vstd::arithmetic::div_mod::lemma_small_mod(d[i][k] as nat, q as nat);
    }
    // the answer is congruent to the exact dot product of row i with xs
    assert(ans[i] == dot_int(d[i], c, m) % q);
    lemma_dot_congruence(d[i], di, c, xs, m);
    // split the exact product into the secret part and the payload part
    lemma_sdot_add_right(di, as_vec, w, xs, m);
    // swap summation order on the secret part
    lemma_sdot_swap(di, a, s, m, n);
    let h_int = Seq::new(n as nat, |t: int| sdot(di, to_int(col_of(a, t)), m));
    // the hint row holds the residues of the swapped sums
    assert forall|t: int| 0 <= t < n implies #[trigger] h[i][t] == h_int[t] % q by {
        assert(h[i][t] == dot_mod(d[i], col_of(a, t)) as u64);
        assert(col_of(a, t).len() == m);
        assert forall|k: int| 0 <= k < m implies #[trigger] col_of(a, t)[k] == to_int(
            col_of(a, t),
        )[k] % q by {
            vstd::arithmetic::div_mod::lemma_small_mod(col_of(a, t)[k] as nat, q as nat);
        }
        lemma_dot_congruence(d[i], di, col_of(a, t), to_int(col_of(a, t)), m);
        lemma_mod_bound(sdot(di, to_int(col_of(a, t)), m), q);
        lemma_mod_twice(sdot(di, to_int(col_of(a, t)), m), q);
    }
    assert forall|k: int| 0 <= k < n implies #[trigger] s[k] == s_int[k] % q by {
        vstd::arithmetic::div_mod::lemma_small_mod(s[k] as nat, q as nat);
    }
    let t_val = dot_mod(h[i], s);
    assert(h[i].len() == n);
    lemma_dot_congruence(h[i], h_int, s, s_int, n);
    assert(t_val == sdot(h_int, s_int, n) % q) by {
        lemma_mod_twice(dot_int(h[i], s, n), q);
    }
    // subtract: the secret parts cancel, leaving the payload part
    let big_a = sdot(di, xs, m);
    let big_t = sdot(h_int, s_int, n);
    assert(big_a == big_t + sdot(di, w, m));
    assert((ans[i] - t_val) % q == (big_a - big_t) % q) by {
        lemma_sub_mod_noop(big_a % q, big_t % q, q);
        lemma_sub_mod_noop(big_a, big_t, q);
        lemma_mod_twice(big_a, q);
        lemma_mod_twice(big_t, q);
        assert(ans[i] == big_a % q) by {
            lemma_mod_twice(dot_int(d[i], c, m), q);
        }
    }
    // the payload splits into the scaled plaintext and the scaled noise
    let pe = Seq::new(m as nat, |j: int| eta[j] * p);
    let dv = Seq::new(m as nat, |j: int| delta * (v[j] as int));
    lemma_sdot_add_right(di, pe, dv, w, m);
    let eta_c = Seq::new(m as nat, |j: int| eta[j]);
    assert forall|k: int| 0 <= k < m implies #[trigger] pe[k] == p * eta_c[k] by {
        assert(eta[k] * p == p * eta[k]) by (nonlinear_arith);
    }
    lemma_sdot_scale_right(di, eta_c, pe, p, m);
    let v_int = to_int(v);
    assert forall|k: int| 0 <= k < m implies #[trigger] dv[k] == delta * v_int[k] by {}
    lemma_sdot_scale_right(di, v_int, dv, delta, m);
    lemma_sdot_prefix(eta_c, eta, di, m);
    assert(sdot(di, eta_c, m) == sdot(di, eta, m)) by {
        lemma_sdot_take(di, eta, eta_c, m);
    }
    // substitute the signed values for the residues
    assert forall|k: int| 0 <= k < m implies #[trigger] di[k] % q == ds[i][k] % q by {
        vstd::arithmetic::div_mod::lemma_small_mod(d[i][k] as nat, q as nat);
    }
    assert forall|k: int| 0 <= k < m implies #[trigger] v_int[k] % q == vs[k] % q by {
        vstd::arithmetic::div_mod::lemma_small_mod(v[k] as nat, q as nat);
    }
    assert forall|k: int| 0 <= k < m implies #[trigger] eta[k] % q == eta[k] % q by {}
    lemma_sdot_congruence(di, ds[i], v_int, vs, m);
    lemma_sdot_congruence(di, ds[i], eta, eta, m);
    lemma_mod_mul_congruent(delta, sdot(di, v_int, m), delta, sdot(ds[i], vs, m));
    lemma_mod_mul_congruent(p, sdot(di, eta, m), p, sdot(ds[i], eta, m));
    lemma_add_mod_noop(delta * sdot(di, v_int, m), p * sdot(di, eta, m), q);
    lemma_add_mod_noop(delta * sdot(ds[i], vs, m), p * sdot(ds[i], eta, m), q);
    assert(big_a - big_t == delta * sdot(di, v_int, m) + p * sdot(di, eta, m));
}


/// One PIR round decodes exactly: entry `i` of the recovered vector is the
/// signed product `(D·v)[i]` plus the rounded noise term, whenever that sum
/// stays in the centered plaintext range.
pub proof fn lemma_round_output_exact(
    params: SimplePIRParams,
    d: Seq<Seq<u64>>,
    ds: Seq<Seq<int>>,
    v: Seq<u64>,
    vs: Seq<int>,
    s: Seq<u64>,
    eta: Seq<int>,
    i: int,
)
    requires
        params.wf(),
        0 <= i < d.len(),
        d[i].len() == params.m,
        ds[i].len() == params.m,
        v.len() == params.m,
        vs.len() == params.m,
        s.len() == params.n,
        eta.len() == params.m,
        residues_of(d[i], ds[i], params.m as int),
        residues_of(v, vs, params.m as int),
        ({
            let eps = (params.p_int() * sdot(ds[i], eta, params.m as int)) / params.delta_int();
            -params.p_int() / 2 <= sdot(ds[i], vs, params.m as int) + eps < params.p_int() / 2
        }),
    ensures
        round_output(params, d, v, s, eta)[i] == sdot(ds[i], vs, params.m as int) + (
        params.p_int() * sdot(ds[i], eta, params.m as int)) / params.delta_int(),
{
    params.lemma_p_delta();
    let q = q_int();
    let m = params.m as int;
    let p = params.p_int();
    let delta = params.delta_int();
    let big_x = sdot(ds[i], vs, m);
    let big_w = sdot(ds[i], eta, m);
    let a = a_matrix_spec(params.seed, params.m as nat, params.n as nat);
    let c = Seq::new(params.m as nat, |j: int| cipher_entry(params, v, a, s, eta, j) as u64);
    let h = hint_matrix_spec(d, a);
    let ans = answer_spec(d, c);
    lemma_response_identity(params, d, ds, v, vs, s, eta, i);
    lemma_round_decode(params, big_x, big_w);
    assert(round_output(params, d, v, s, eta)[i] == recover_entry(h, s, ans, params, i));
    assert(recover_entry(h, s, ans, params, i) == centered(
        ((ans[i] - dot_mod(h[i], s)) % q) / delta,
        p,
    ));
}

/// Recovery correctness for an arbitrary query vector: when the signed
/// product `(D·v)[i]` fits in the plaintext range with `tol` to spare and
/// the accumulated noise respects the budget `|p·(D·eta)[i]| <= tol·delta`,
/// the recovered entry equals `(D·v)[i]` within `tol`.
pub proof fn lemma_recovery_within_tolerance(
    params: SimplePIRParams,
    d: Seq<Seq<u64>>,
    ds: Seq<Seq<int>>,
    v: Seq<u64>,
    vs: Seq<int>,
    s: Seq<u64>,
    eta: Seq<int>,
    tol: int,
    i: int,
)
    requires
        params.wf(),
        0 <= i < d.len(),
        d[i].len() == params.m,
        ds[i].len() == params.m,
        v.len() == params.m,
        vs.len() == params.m,
        s.len() == params.n,
        eta.len() == params.m,
        residues_of(d[i], ds[i], params.m as int),
        residues_of(v, vs, params.m as int),
        tol >= 0,
        -params.p_int() / 2 + tol <= sdot(ds[i], vs, params.m as int) <= params.p_int() / 2 - 1
            - tol,
        -(tol * params.delta_int()) <= params.p_int() * sdot(ds[i], eta, params.m as int) <= tol
            * params.delta_int(),
    ensures
        ({
            let out = round_output(params, d, v, s, eta)[i];
            let want = sdot(ds[i], vs, params.m as int);
            want - tol <= out <= want + tol
        }),
{
    params.lemma_p_delta();
    let m = params.m as int;
    let p = params.p_int();
    let delta = params.delta_int();
    let pw = p * sdot(ds[i], eta, m);
    let eps = pw / delta;
    assert(eps <= tol) by {
        lemma_div_is_ordered(pw, tol * delta, delta);
        lemma_div_multiples_vanish(tol, delta);
        assert(tol * delta == delta * tol) by (nonlinear_arith);
    }
    assert(-tol <= eps) by {
        lemma_div_is_ordered(-(tol * delta), pw, delta);
        lemma_div_multiples_vanish(-tol, delta);
        assert(-(tol * delta) == delta * (-tol)) by (nonlinear_arith);
    }
    lemma_round_output_exact(params, d, ds, v, vs, s, eta, i);
}

/// Recovery correctness for one-hot queries: querying with the unit vector
/// at column `j` recovers column `j` of the signed database, entry by
/// entry within `tol`, whenever the entries fit the plaintext range and the
/// noise respects the budget.
pub proof fn lemma_one_hot_recovery(
    params: SimplePIRParams,
    d: Seq<Seq<u64>>,
    ds: Seq<Seq<int>>,
    s: Seq<u64>,
    eta: Seq<int>,
    j: int,
    tol: int,
    i: int,
)
    requires
        params.wf(),
        0 <= i < d.len(),
        0 <= j < params.m,
        d[i].len() == params.m,
        ds[i].len() == params.m,
        s.len() == params.n,
        eta.len() == params.m,
        residues_of(d[i], ds[i], params.m as int),
        tol >= 0,
        -params.p_int() / 2 + tol <= ds[i][j] <= params.p_int() / 2 - 1 - tol,
        -(tol * params.delta_int()) <= params.p_int() * sdot(ds[i], eta, params.m as int) <= tol
            * params.delta_int(),
    ensures
        ({
            let out = round_output(
                params,
                d,
                crate::client::unit_spec(params.m as nat, j),
                s,
                eta,
            )[i];
            ds[i][j] - tol <= out <= ds[i][j] + tol
        }),
{
    params.lemma_p_delta();
    let m = params.m as int;
    let u = crate::client::unit_spec(params.m as nat, j);
    let us = Seq::new(
        params.m as nat,
        |k: int|
            if k == j {
                1int
            } else {
                0int
            },
    );
    assert forall|k: int| 0 <= k < m implies #[trigger] u[k] == us[k] % q_int() by {
        vstd::arithmetic::div_mod::lemma_small_mod(u[k] as nat, q_int() as nat);
    }
    lemma_sdot_unit_right(ds[i], us, j, m);
    lemma_recovery_within_tolerance(params, d, ds, u, us, s, eta, tol, i);
}


/// With the plaintext modulus equal to `q` — the encoding database's
/// setting — recovery is exact modulo `q`: the scaling factor is one and the
/// noise term, a multiple of `q`, vanishes entirely.
pub proof fn lemma_full_modulus_round(
    params: SimplePIRParams,
    d: Seq<Seq<u64>>,
    v: Seq<u64>,
    vs: Seq<int>,
    s: Seq<u64>,
    eta: Seq<int>,
    i: int,
)
    requires
        params.wf(),
        params.mod_power == 64,
        0 <= i < d.len(),
        d[i].len() == params.m,
        v.len() == params.m,
        vs.len() == params.m,
        residues_of(v, vs, params.m as int),
        s.len() == params.n,
        eta.len() == params.m,
    ensures
        round_output(params, d, v, s, eta)[i] % q_int() == sdot(
            to_int(d[i]),
            vs,
            params.m as int,
        ) % q_int(),
{
    params.lemma_p_delta();
    vstd::arithmetic::power2::lemma2_to64();
    let q = q_int();
    let m = params.m as int;
    let p = params.p_int();
    let delta = params.delta_int();
    assert(delta == 1);
    assert(p == q);
    let ds = Seq::new(d.len(), |r: int| to_int(d[r]));
    assert(ds[i] =~= to_int(d[i]));
    assert forall|k: int| 0 <= k < m implies #[trigger] d[i][k] == ds[i][k] % q by {
        vstd::arithmetic::div_mod::lemma_small_mod(d[i][k] as nat, q as nat);
    }
    lemma_response_identity(params, d, ds, v, vs, s, eta, i);
    let big_x = sdot(ds[i], vs, m);
    let big_w = sdot(ds[i], eta, m);
    let a = a_matrix_spec(params.seed, params.m as nat, params.n as nat);
    let c = Seq::new(params.m as nat, |j: int| cipher_entry(params, v, a, s, eta, j) as u64);
    let h = hint_matrix_spec(d, a);
    let ans = answer_spec(d, c);
    let t = dot_mod(h[i], s);
    let diff = (ans[i] - t) % q;
    // the noise contribution is a multiple of q and vanishes
    assert((delta * big_x + p * big_w) % q == big_x % q) by {
        assert(delta * big_x + p * big_w == q * big_w + big_x) by (nonlinear_arith)
            requires
                delta == 1,
                p == q,
        ;
        vstd::arithmetic::div_mod::lemma_mod_multiples_vanish(big_w, big_x, q);
    }
    // with a unit scaling factor, rounding is the identity
    lemma_mod_bound(ans[i] - t, q);
    assert(diff / 1 == diff) by {
        vstd::arithmetic::div_mod::lemma_fundamental_div_mod(diff, 1);
    }
    let out = round_output(params, d, v, s, eta)[i];
    assert(out == centered(diff, p));
    if diff >= p / 2 {
        assert(out == diff - p);
        assert((diff - p) % q == diff % q) by {
            vstd::arithmetic::div_mod::lemma_mod_multiples_vanish(-1, diff, q);
        }
    }
    vstd::arithmetic::div_mod::lemma_small_mod(diff as nat, q as nat);
}

/// A recovered vector whose entries' residues are a matrix column carries
/// exactly that column's bytes.
proof fn lemma_vector_column_bytes(y: Seq<i64>, m: Seq<Seq<u64>>, j: int, n: int)
    requires
        n >= 0,
        forall|i: int| 0 <= i < n ==> (#[trigger] y[i] as int) % q_int() == m[i][j],
    ensures
        crate::codec::vector_bytes(y, n) == crate::codec::column_bytes(m, j, n),
    decreases n,
{
    if n > 0 {
        lemma_vector_column_bytes(y, m, j, n - 1);
        assert(crate::codec::vector_bytes(y, n) =~= crate::codec::column_bytes(m, j, n));
    }
}

/// The pipeline's decode stage, exactly: against an encoding database that
/// holds NUL-free, non-empty records at the full plaintext modulus, the
/// vector recovered from a one-hot query for column `j` is valid UTF-8 and
/// decodes — NULs stripped — to record `j`, character for character.
pub proof fn lemma_one_hot_decodes_to_record(
    params: SimplePIRParams,
    strs: Seq<Seq<char>>,
    s: Seq<u64>,
    eta: Seq<int>,
    j: int,
    y: Seq<i64>,
)
    requires
        params.wf(),
        params.mod_power == 64,
        strs.len() >= 1,
        forall|i: int| 0 <= i < strs.len() ==> (#[trigger] strs[i]).len() >= 1,
        forall|i: int| 0 <= i < strs.len() ==> crate::codec::nul_free(#[trigger] strs[i]),
        0 <= j < strs.len(),
        params.m == crate::codec::encode_side(
            strs.map_values(|c: Seq<char>| vstd::utf8::encode_utf8(c)),
        ),
        s.len() == params.n,
        eta.len() == params.m,
        y.len() == params.m,
        forall|i: int|
            0 <= i < y.len() ==> #[trigger] y[i] == round_output(
                params,
                crate::codec::encode_spec(
                    strs.map_values(|c: Seq<char>| vstd::utf8::encode_utf8(c)),
                ),
                crate::client::unit_spec(params.m as nat, j),
                s,
                eta,
            )[i],
    ensures
        vstd::utf8::valid_utf8(crate::codec::vector_bytes(y, y.len() as int)),
        crate::codec::strip_nul_chars(
            vstd::utf8::decode_utf8(crate::codec::vector_bytes(y, y.len() as int)),
        ) == strs[j],
{
    let rs = strs.map_values(|c: Seq<char>| vstd::utf8::encode_utf8(c));
    let m = crate::codec::encode_spec(rs);
    let side = crate::codec::encode_side(rs) as int;
    let q = q_int();
    let u = crate::client::unit_spec(params.m as nat, j);
    let us = Seq::new(
        params.m as nat,
        |k: int|
            if k == j {
                1int
            } else {
                0int
            },
    );
    assert forall|k: int| 0 <= k < params.m implies #[trigger] u[k] == us[k] % q by {
        vstd::arithmetic::div_mod::lemma_small_mod(u[k] as nat, q as nat);
    }
    // each recovered entry's residue is the column entry, exactly
    assert forall|i: int| 0 <= i < y.len() implies (#[trigger] y[i] as int) % q == m[i][j] by {
        assert(m[i].len() == side);
        lemma_full_modulus_round(params, m, u, us, s, eta, i);
        lemma_sdot_unit_right(to_int(m[i]), us, j, params.m as int);
        assert(to_int(m[i])[j] == m[i][j]);
        vstd::arithmetic::div_mod::lemma_small_mod(m[i][j] as nat, q as nat);
    }
    lemma_vector_column_bytes(y, m, j, side);
    crate::codec::lemma_encode_decode_roundtrip(strs);
}


/// The whole second stage of a client query, exactly: if the encoding
/// database of a query holds the encoding of NUL-free, non-empty records at
/// the full plaintext modulus and the first stage's best match falls on a
/// record column, the returned vector decodes — NULs stripped — to exactly
/// that record.
pub proof fn lemma_query_stage_two_decodes(
    db: crate::server::SimplePirDatabase,
    strs: Seq<Seq<char>>,
    y1: Seq<i64>,
    out: Seq<i64>,
)
    requires
        db.wf(),
        db.ready(),
        db.spec_params().mod_power == 64,
        strs.len() >= 1,
        forall|i: int| 0 <= i < strs.len() ==> (#[trigger] strs[i]).len() >= 1,
        forall|i: int| 0 <= i < strs.len() ==> crate::codec::nul_free(#[trigger] strs[i]),
        db.data@ == crate::codec::encode_spec(
            strs.map_values(|c: Seq<char>| vstd::utf8::encode_utf8(c)),
        ),
        db.spec_params().m == crate::codec::encode_side(
            strs.map_values(|c: Seq<char>| vstd::utf8::encode_utf8(c)),
        ),
        y1.len() >= 1,
        crate::client::argmax_spec(y1) < strs.len(),
        crate::client::stage_post(
            db,
            crate::client::adjust_spec(
                crate::client::unit_spec(y1.len(), crate::client::argmax_spec(y1)),
                db.spec_params().m as nat,
            ),
            out,
        ),
    ensures
        vstd::utf8::valid_utf8(crate::codec::vector_bytes(out, out.len() as int)),
        crate::codec::strip_nul_chars(
            vstd::utf8::decode_utf8(crate::codec::vector_bytes(out, out.len() as int)),
        ) == strs[crate::client::argmax_spec(y1)],
{
    let params = db.spec_params();
    let rs = strs.map_values(|c: Seq<char>| vstd::utf8::encode_utf8(c));
    let side = crate::codec::encode_side(rs) as int;
    let j = crate::client::argmax_spec(y1);
    // the best-match index is a valid position of the first stage's vector
    let witness = crate::client::lemma_argmax_exists(y1);
    crate::client::lemma_argmax_unique(y1, witness, j);
    assert(0 <= j < y1.len());
    // adjusting the one-hot vector to the database side keeps it one-hot
    let adjusted = crate::client::adjust_spec(
        crate::client::unit_spec(y1.len(), j),
        params.m as nat,
    );
    assert(adjusted =~= crate::client::unit_spec(params.m as nat, j));
    // the stage output is one exact round; full modulus makes it the column
    let (sv, etav): (Seq<u64>, Seq<int>) = choose|sv: Seq<u64>, etav: Seq<int>|
        {
            &&& sv.len() == params.n
            &&& crate::pir::is_noise(etav, params.m as nat)
            &&& #[trigger] crate::client::matches_round(db, adjusted, sv, etav, out)
        };
    assert(out.len() == db.data@.len());
    lemma_one_hot_decodes_to_record(params, strs, sv, etav, j, out);
}

} // verus!
