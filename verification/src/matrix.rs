//! Dense matrices and vectors over the ring of residues modulo `q = 2^64`.
//! Every arithmetic method reduces after each accumulation step, so no
//! intermediate value can overflow; the contracts state each entry of the
//! result exactly, as a mathematical integer modulo `q`.
use crate::ring::{add_mod, lemma_mod_add_left, mul_add_mod, mul_mod, q_int, sub_mod};
use crate::rng::{chacha_stream, chacha_words, entropy_words};
use vstd::prelude::*;

verus! {

/// Partial dot product of the first `n` positions of `a` and `b`, as an
/// exact (unreduced) integer.
pub open spec fn dot_int(a: Seq<u64>, b: Seq<u64>, n: int) -> int
    decreases n,
{
    if n <= 0 {
        0
    } else {
        dot_int(a, b, n - 1) + a[n - 1] * b[n - 1]
    }
}

/// Dot product of `a` and `b` over all of `a`, reduced modulo `q`.
pub open spec fn dot_mod(a: Seq<u64>, b: Seq<u64>) -> int {
    dot_int(a, b, a.len() as int) % q_int()
}

/// Column `j` of a matrix given as a sequence of rows.
pub open spec fn col_of(m: Seq<Seq<u64>>, j: int) -> Seq<u64> {
    Seq::new(m.len(), |i: int| m[i][j])
}

/// A vector of residues modulo `q`.
pub struct Vector {
    pub data: Vec<u64>,
}

impl View for Vector {
    type V = Seq<u64>;

    open spec fn view(&self) -> Seq<u64> {
        self.data@
    }
}

impl Vector {
    /// Wraps a list of residues as a vector.
    pub fn new(data: Vec<u64>) -> (r: Vector)
        ensures
            r@ == data@,
    {
        Vector { data }
    }

    /// A vector of `len` zero residues.
    pub fn zeros(len: usize) -> (r: Vector)
        ensures
            r@.len() == len,
            forall|i: int| 0 <= i < len ==> r@[i] == 0,
    {
        let mut data: Vec<u64> = Vec::new();
        let mut i: usize = 0;
        while i < len
            invariant
                i <= len,
                data@.len() == i,
                forall|k: int| 0 <= k < i ==> data@[k] == 0,
            decreases len - i,
        {
            data.push(0);
            i = i + 1;
        }
        Vector { data }
    }

    /// A vector of uniform random residues: from the deterministic seeded
    /// stream when a seed is given, from system entropy otherwise.
    pub fn from_random(len: usize, seed: Option<u64>) -> (r: Vector)
        ensures
            r@.len() == len,
            match seed {
                Some(x) => r@ == chacha_stream(x, len as nat),
                None => true,
            },
    {
        match seed {
            Some(x) => Vector { data: chacha_words(x, len) },
            None => Vector { data: entropy_words(len) },
        }
    }

    /// The number of entries.
    pub fn len(&self) -> (r: usize)
        ensures
            r == self@.len(),
    {
        self.data.len()
    }

    /// The entry at position `i`.
    pub fn get(&self, i: usize) -> (r: u64)
        requires
            i < self@.len(),
        ensures
            r == self@[i as int],
    {
        self.data[i]
    }

    /// Replaces the entry at position `i`.
    pub fn set(&mut self, i: usize, x: u64)
        requires
            i < old(self)@.len(),
        ensures
            final(self)@ == old(self)@.update(i as int, x),
    {
        self.data.set(i, x);
    }

    /// Entry-wise sum modulo `q`.
    pub fn add(&self, other: &Vector) -> (r: Vector)
        requires
            self@.len() == other@.len(),
        ensures
            r@.len() == self@.len(),
            forall|i: int|
                0 <= i < r@.len() ==> r@[i] == (self@[i] + other@[i]) % q_int(),
    {
        let n = self.data.len();
        let mut data: Vec<u64> = Vec::new();
        let mut i: usize = 0;
        while i < n
            invariant
                i <= n,
                n == self@.len() == other@.len(),
                data@.len() == i,
                forall|k: int|
                    0 <= k < i ==> data@[k] == (self@[k] + other@[k]) % q_int(),
            decreases n - i,
        {
            data.push(add_mod(self.data[i], other.data[i]));
            i = i + 1;
        }
        Vector { data }
    }

    /// Entry-wise difference modulo `q`, with non-negative representatives.
    pub fn sub(&self, other: &Vector) -> (r: Vector)
        requires
            self@.len() == other@.len(),
        ensures
            r@.len() == self@.len(),
            forall|i: int|
                0 <= i < r@.len() ==> r@[i] == (self@[i] - other@[i]) % q_int(),
    {
        let n = self.data.len();
        let mut data: Vec<u64> = Vec::new();
        let mut i: usize = 0;
        while i < n
            invariant
                i <= n,
                n == self@.len() == other@.len(),
                data@.len() == i,
                forall|k: int|
                    0 <= k < i ==> data@[k] == (self@[k] - other@[k]) % q_int(),
            decreases n - i,
        {
            data.push(sub_mod(self.data[i], other.data[i]));
            i = i + 1;
        }
        Vector { data }
    }

    /// Entry-wise negation modulo `q`.
    pub fn neg(&self) -> (r: Vector)
        ensures
            r@.len() == self@.len(),
            forall|i: int| 0 <= i < r@.len() ==> r@[i] == (0 - self@[i]) % q_int(),
    {
        let n = self.data.len();
        let mut data: Vec<u64> = Vec::new();
        let mut i: usize = 0;
        while i < n
            invariant
                i <= n,
                n == self@.len(),
                data@.len() == i,
                forall|k: int| 0 <= k < i ==> data@[k] == (0 - self@[k]) % q_int(),
            decreases n - i,
        {
            data.push(sub_mod(0, self.data[i]));
            i = i + 1;
        }
        Vector { data }
    }

    /// Entry-wise scaling modulo `q`.
    pub fn mul_scalar(&self, scalar: u64) -> (r: Vector)
        ensures
            r@.len() == self@.len(),
            forall|i: int|
                0 <= i < r@.len() ==> r@[i] == (self@[i] * scalar) % q_int(),
    {
        let n = self.data.len();
        let mut data: Vec<u64> = Vec::new();
        let mut i: usize = 0;
        while i < n
            invariant
                i <= n,
                n == self@.len(),
                data@.len() == i,
                forall|k: int| 0 <= k < i ==> data@[k] == (self@[k] * scalar) % q_int(),
            decreases n - i,
        {
            data.push(mul_mod(self.data[i], scalar));
            i = i + 1;
        }
        Vector { data }
    }

    /// Dot product modulo `q`, reduced after every accumulation step.
    pub fn dot(&self, other: &Vector) -> (r: u64)
        requires
            self@.len() == other@.len(),
        ensures
            r == dot_mod(self@, other@),
    {
        let n = self.data.len();
        let mut acc: u64 = 0;
        let mut i: usize = 0;
        while i < n
            invariant
                i <= n,
                n == self@.len() == other@.len(),
                acc == dot_int(self@, other@, i as int) % q_int(),
            decreases n - i,
        {
            proof {
                lemma_mod_add_left(
                    dot_int(self@, other@, i as int),
                    self@[i as int] * other@[i as int],
                );
            }
            acc = mul_add_mod(acc, self.data[i], other.data[i]);
            i = i + 1;
        }
        acc
    }
}

/// A dense matrix of residues modulo `q`, stored as rows.
pub struct Matrix {
    pub data: Vec<Vec<u64>>,
}

impl View for Matrix {
    type V = Seq<Seq<u64>>;

    open spec fn view(&self) -> Seq<Seq<u64>> {
        self.data@.map_values(|r: Vec<u64>| r@)
    }
}

impl Matrix {
    /// Well-formed: at least one row and one column, all rows equally long.
    pub open spec fn wf(&self) -> bool {
        &&& self@.len() >= 1
        &&& self@[0].len() >= 1
        &&& forall|i: int|
            0 <= i < self@.len() ==> (#[trigger] self@[i]).len() == self@[0].len()
    }

    /// The number of rows.
    pub open spec fn spec_rows(&self) -> nat {
        self@.len()
    }

    /// The number of columns.
    pub open spec fn spec_cols(&self) -> nat {
        self@[0].len()
    }

    /// Wraps a rectangular, non-empty list of rows as a matrix.
    pub fn new(data: Vec<Vec<u64>>) -> (r: Matrix)
        requires
            data@.len() >= 1,
            data@[0]@.len() >= 1,
            forall|i: int|
                0 <= i < data@.len() ==> (#[trigger] data@[i])@.len() == data@[0]@.len(),
        ensures
            r.wf(),
            r@.len() == data@.len(),
            forall|i: int| 0 <= i < data@.len() ==> r@[i] == (#[trigger] data@[i])@,
    {
        let r = Matrix { data };
        proof {
            assert(forall|i: int|
                0 <= i < r@.len() ==> r@[i] == (#[trigger] r.data@[i])@);
        }
        r
    }

    /// An all-zero matrix of the given shape.
    pub fn zeros(rows: usize, cols: usize) -> (r: Matrix)
        requires
            rows >= 1,
            cols >= 1,
        ensures
            r.wf(),
            r.spec_rows() == rows,
            r.spec_cols() == cols,
            forall|i: int, j: int|
                0 <= i < rows && 0 <= j < cols ==> r@[i][j] == 0,
    {
        let mut data: Vec<Vec<u64>> = Vec::new();
        let mut i: usize = 0;
        while i < rows
            invariant
                i <= rows,
                data@.len() == i,
                forall|k: int|
                    0 <= k < i ==> (#[trigger] data@[k])@.len() == cols,
                forall|k: int, j: int|
                    0 <= k < i && 0 <= j < cols ==> data@[k]@[j] == 0,
            decreases rows - i,
        {
            let row = Vector::zeros(cols);
            data.push(row.data);
            i = i + 1;
        }
        Matrix { data }
    }

    /// A matrix whose `rows` rows are all copies of the given vector.
    pub fn from_vector(rows: usize, cols: usize, vector: Vector) -> (r: Matrix)
        requires
            rows >= 1,
            cols >= 1,
            vector@.len() == cols,
        ensures
            r.wf(),
            r.spec_rows() == rows,
            r.spec_cols() == cols,
            forall|i: int| 0 <= i < rows ==> #[trigger] r@[i] == vector@,
    {
        let mut data: Vec<Vec<u64>> = Vec::new();
        let mut i: usize = 0;
        while i < rows
            invariant
                i <= rows,
                data@.len() == i,
                forall|k: int| 0 <= k < i ==> (#[trigger] data@[k])@ == vector@,
            decreases rows - i,
        {
            let row: Vec<u64> = vector.data.clone();
            data.push(row);
            i = i + 1;
        }
        Matrix { data }
    }

    /// A matrix of uniform random residues drawn from system entropy.
    pub fn from_random(rows: usize, cols: usize) -> (r: Matrix)
        requires
            rows >= 1,
            cols >= 1,
        ensures
            r.wf(),
            r.spec_rows() == rows,
            r.spec_cols() == cols,
    {
        let mut data: Vec<Vec<u64>> = Vec::new();
        let mut i: usize = 0;
        while i < rows
            invariant
                i <= rows,
                cols >= 1,
                data@.len() == i,
                forall|k: int| 0 <= k < i ==> (#[trigger] data@[k])@.len() == cols,
            decreases rows - i,
        {
            data.push(entropy_words(cols));
            i = i + 1;
        }
        Matrix { data }
    }

    /// The number of rows.
    pub fn rows(&self) -> (r: usize)
        ensures
            r == self.spec_rows(),
    {
        self.data.len()
    }

    /// The number of columns.
    pub fn cols(&self) -> (r: usize)
        requires
            self.wf(),
        ensures
            r == self.spec_cols(),
    {
        self.data[0].len()
    }

    /// The side length of a square matrix.
    pub fn dim(&self) -> (r: usize)
        requires
            self.wf(),
            self.spec_rows() == self.spec_cols(),
        ensures
            r == self.spec_rows(),
    {
        self.data.len()
    }

    /// The entry in row `i`, column `j`.
    pub fn get(&self, i: usize, j: usize) -> (r: u64)
        requires
            self.wf(),
            i < self.spec_rows(),
            j < self.spec_cols(),
        ensures
            r == self@[i as int][j as int],
    {
        proof {
            assert(self@[i as int].len() == self.spec_cols());
        }
        self.data[i][j]
    }

    /// Entry-wise sum modulo `q`.
    pub fn add(&self, other: &Matrix) -> (r: Matrix)
        requires
            self.wf(),
            other.wf(),
            self.spec_rows() == other.spec_rows(),
            self.spec_cols() == other.spec_cols(),
        ensures
            r.wf(),
            r.spec_rows() == self.spec_rows(),
            r.spec_cols() == self.spec_cols(),
            forall|i: int, j: int|
                0 <= i < r@.len() && 0 <= j < r@[0].len() ==> r@[i][j] == (self@[i][j]
                    + other@[i][j]) % q_int(),
    {
        let rows = self.data.len();
        let cols = self.data[0].len();
        let mut data: Vec<Vec<u64>> = Vec::new();
        let mut i: usize = 0;
        while i < rows
            invariant
                i <= rows,
                self.wf(),
                other.wf(),
                rows == self.spec_rows() == other.spec_rows(),
                cols == self.spec_cols() == other.spec_cols(),
                data@.len() == i,
                forall|k: int|
                    0 <= k < i ==> (#[trigger] data@[k])@.len() == cols,
                forall|k: int, j: int|
                    0 <= k < i && 0 <= j < cols ==> data@[k]@[j] == (self@[k][j]
                        + other@[k][j]) % q_int(),
            decreases rows - i,
        {
            let mut row: Vec<u64> = Vec::new();
            let mut j: usize = 0;
            while j < cols
                invariant
                    j <= cols,
                    i < rows,
                    self.wf(),
                    other.wf(),
                    rows == self.spec_rows() == other.spec_rows(),
                    cols == self.spec_cols() == other.spec_cols(),
                    row@.len() == j,
                    forall|t: int|
                        0 <= t < j ==> row@[t] == (self@[i as int][t]
                            + other@[i as int][t]) % q_int(),
                decreases cols - j,
            {
                proof {
                    assert(self@[i as int].len() == self.spec_cols());
                    assert(other@[i as int].len() == other.spec_cols());
                }
                row.push(add_mod(self.data[i][j], other.data[i][j]));
                j = j + 1;
            }
            data.push(row);
            i = i + 1;
        }
        Matrix { data }
    }

    /// Entry-wise difference modulo `q`.
    pub fn sub(&self, other: &Matrix) -> (r: Matrix)
        requires
            self.wf(),
            other.wf(),
            self.spec_rows() == other.spec_rows(),
            self.spec_cols() == other.spec_cols(),
        ensures
            r.wf(),
            r.spec_rows() == self.spec_rows(),
            r.spec_cols() == self.spec_cols(),
            forall|i: int, j: int|
                0 <= i < r@.len() && 0 <= j < r@[0].len() ==> r@[i][j] == (self@[i][j]
                    - other@[i][j]) % q_int(),
    {
        let rows = self.data.len();
        let cols = self.data[0].len();
        let mut data: Vec<Vec<u64>> = Vec::new();
        let mut i: usize = 0;
        while i < rows
            invariant
                i <= rows,
                self.wf(),
                other.wf(),
                rows == self.spec_rows() == other.spec_rows(),
                cols == self.spec_cols() == other.spec_cols(),
                data@.len() == i,
                forall|k: int|
                    0 <= k < i ==> (#[trigger] data@[k])@.len() == cols,
                forall|k: int, j: int|
                    0 <= k < i && 0 <= j < cols ==> data@[k]@[j] == (self@[k][j]
                        - other@[k][j]) % q_int(),
            decreases rows - i,
        {
            let mut row: Vec<u64> = Vec::new();
            let mut j: usize = 0;
            while j < cols
                invariant
                    j <= cols,
                    i < rows,
                    self.wf(),
                    other.wf(),
                    rows == self.spec_rows() == other.spec_rows(),
                    cols == self.spec_cols() == other.spec_cols(),
                    row@.len() == j,
                    forall|t: int|
                        0 <= t < j ==> row@[t] == (self@[i as int][t]
                            - other@[i as int][t]) % q_int(),
                decreases cols - j,
            {
                proof {
                    assert(self@[i as int].len() == self.spec_cols());
                    assert(other@[i as int].len() == other.spec_cols());
                }
                row.push(sub_mod(self.data[i][j], other.data[i][j]));
                j = j + 1;
            }
            data.push(row);
            i = i + 1;
        }
        Matrix { data }
    }

    /// Entry-wise negation modulo `q`.
    pub fn neg(&self) -> (r: Matrix)
        requires
            self.wf(),
        ensures
            r.wf(),
            r.spec_rows() == self.spec_rows(),
            r.spec_cols() == self.spec_cols(),
            forall|i: int, j: int|
                0 <= i < r@.len() && 0 <= j < r@[0].len() ==> r@[i][j] == (0
                    - self@[i][j]) % q_int(),
    {
        let rows = self.data.len();
        let cols = self.data[0].len();
        let mut data: Vec<Vec<u64>> = Vec::new();
        let mut i: usize = 0;
        while i < rows
            invariant
                i <= rows,
                self.wf(),
                rows == self.spec_rows(),
                cols == self.spec_cols(),
                data@.len() == i,
                forall|k: int|
                    0 <= k < i ==> (#[trigger] data@[k])@.len() == cols,
                forall|k: int, j: int|
                    0 <= k < i && 0 <= j < cols ==> data@[k]@[j] == (0 - self@[k][j])
                        % q_int(),
            decreases rows - i,
        {
            let mut row: Vec<u64> = Vec::new();
            let mut j: usize = 0;
            while j < cols
                invariant
                    j <= cols,
                    i < rows,
                    self.wf(),
                    rows == self.spec_rows(),
                    cols == self.spec_cols(),
                    row@.len() == j,
                    forall|t: int|
                        0 <= t < j ==> row@[t] == (0 - self@[i as int][t]) % q_int(),
                decreases cols - j,
            {
                proof {
                    assert(self@[i as int].len() == self.spec_cols());
                }
                row.push(sub_mod(0, self.data[i][j]));
                j = j + 1;
            }
            data.push(row);
            i = i + 1;
        }
        Matrix { data }
    }

    /// Entry-wise scaling modulo `q`.
    pub fn mul_scalar(&self, scalar: u64) -> (r: Matrix)
        requires
            self.wf(),
        ensures
            r.wf(),
            r.spec_rows() == self.spec_rows(),
            r.spec_cols() == self.spec_cols(),
            forall|i: int, j: int|
                0 <= i < r@.len() && 0 <= j < r@[0].len() ==> r@[i][j] == (self@[i][j]
                    * scalar) % q_int(),
    {
        let rows = self.data.len();
        let cols = self.data[0].len();
        let mut data: Vec<Vec<u64>> = Vec::new();
        let mut i: usize = 0;
        while i < rows
            invariant
                i <= rows,
                self.wf(),
                rows == self.spec_rows(),
                cols == self.spec_cols(),
                data@.len() == i,
                forall|k: int|
                    0 <= k < i ==> (#[trigger] data@[k])@.len() == cols,
                forall|k: int, j: int|
                    0 <= k < i && 0 <= j < cols ==> data@[k]@[j] == (self@[k][j]
                        * scalar) % q_int(),
            decreases rows - i,
        {
            let mut row: Vec<u64> = Vec::new();
            let mut j: usize = 0;
            while j < cols
                invariant
                    j <= cols,
                    i < rows,
                    self.wf(),
                    rows == self.spec_rows(),
                    cols == self.spec_cols(),
                    row@.len() == j,
                    forall|t: int|
                        0 <= t < j ==> row@[t] == (self@[i as int][t] * scalar)
                            % q_int(),
                decreases cols - j,
            {
                proof {
                    assert(self@[i as int].len() == self.spec_cols());
                }
                row.push(mul_mod(self.data[i][j], scalar));
                j = j + 1;
            }
            data.push(row);
            i = i + 1;
        }
        Matrix { data }
    }

    /// Matrix product modulo `q`, reduced after every accumulation step.
    pub fn mul(&self, other: &Matrix) -> (r: Matrix)
        requires
            self.wf(),
            other.wf(),
            self.spec_cols() == other.spec_rows(),
        ensures
            r.wf(),
            r.spec_rows() == self.spec_rows(),
            r.spec_cols() == other.spec_cols(),
            forall|i: int, j: int|
                0 <= i < r@.len() && 0 <= j < r@[0].len() ==> r@[i][j] == dot_mod(
                    self@[i],
                    col_of(other@, j),
                ),
    {
        let rows = self.data.len();
        let inner = self.data[0].len();
        let cols = other.data[0].len();
        let mut data: Vec<Vec<u64>> = Vec::new();
        let mut i: usize = 0;
        while i < rows
            invariant
                i <= rows,
                self.wf(),
                other.wf(),
                rows == self.spec_rows(),
                inner == self.spec_cols() == other.spec_rows(),
                cols == other.spec_cols(),
                data@.len() == i,
                forall|k: int|
                    0 <= k < i ==> (#[trigger] data@[k])@.len() == cols,
                forall|k: int, j: int|
                    0 <= k < i && 0 <= j < cols ==> data@[k]@[j] == dot_mod(
                        self@[k],
                        col_of(other@, j),
                    ),
            decreases rows - i,
        {
            let mut row: Vec<u64> = Vec::new();
            let mut j: usize = 0;
            while j < cols
                invariant
                    j <= cols,
                    i < rows,
                    self.wf(),
                    other.wf(),
                    rows == self.spec_rows(),
                    inner == self.spec_cols() == other.spec_rows(),
                    cols == other.spec_cols(),
                    row@.len() == j,
                    forall|t: int|
                        0 <= t < j ==> row@[t] == dot_mod(self@[i as int], col_of(other@, t)),
                decreases cols - j,
            {
                let mut acc: u64 = 0;
                let mut k: usize = 0;
                while k < inner
                    invariant
                        k <= inner,
                        i < rows,
                        j < cols,
                        self.wf(),
                        other.wf(),
                        rows == self.spec_rows(),
                        inner == self.spec_cols() == other.spec_rows(),
                        cols == other.spec_cols(),
                        acc == dot_int(self@[i as int], col_of(other@, j as int), k as int)
                            % q_int(),
                    decreases inner - k,
                {
                    proof {
                        assert(col_of(other@, j as int)[k as int] == other@[k as int][j as int]);
                        lemma_mod_add_left(
                            dot_int(self@[i as int], col_of(other@, j as int), k as int),
                            self@[i as int][k as int] * other@[k as int][j as int],
                        );
                    }
                    acc = mul_add_mod(acc, self.data[i][k], other.data[k][j]);
                    k = k + 1;
                }
                row.push(acc);
                j = j + 1;
            }
            data.push(row);
            i = i + 1;
        }
        Matrix { data }
    }

    /// Matrix-vector product modulo `q`.
    pub fn mul_vec(&self, vector: &Vector) -> (r: Vector)
        requires
            self.wf(),
            self.spec_cols() == vector@.len(),
        ensures
            r@.len() == self.spec_rows(),
            forall|i: int|
                0 <= i < r@.len() ==> r@[i] == dot_mod(self@[i], vector@),
    {
        let rows = self.data.len();
        let cols = self.data[0].len();
        let mut data: Vec<u64> = Vec::new();
        let mut i: usize = 0;
        while i < rows
            invariant
                i <= rows,
                self.wf(),
                rows == self.spec_rows(),
                cols == self.spec_cols() == vector@.len(),
                data@.len() == i,
                forall|k: int|
                    0 <= k < i ==> data@[k] == dot_mod(self@[k], vector@),
            decreases rows - i,
        {
            let mut acc: u64 = 0;
            let mut k: usize = 0;
            while k < cols
                invariant
                    k <= cols,
                    i < rows,
                    self.wf(),
                    rows == self.spec_rows(),
                    cols == self.spec_cols() == vector@.len(),
                    acc == dot_int(self@[i as int], vector@, k as int) % q_int(),
                decreases cols - k,
            {
                proof {
                    lemma_mod_add_left(
                        dot_int(self@[i as int], vector@, k as int),
                        self@[i as int][k as int] * vector@[k as int],
                    );
                }
                acc = mul_add_mod(acc, self.data[i][k], vector.data[k]);
                k = k + 1;
            }
            data.push(acc);
            i = i + 1;
        }
        Vector { data }
    }

    /// The transpose.
    pub fn transpose(&self) -> (r: Matrix)
        requires
            self.wf(),
        ensures
            r.wf(),
            r.spec_rows() == self.spec_cols(),
            r.spec_cols() == self.spec_rows(),
            forall|i: int, j: int|
                0 <= i < r@.len() && 0 <= j < r@[0].len() ==> r@[i][j] == self@[j][i],
    {
        let rows = self.data.len();
        let cols = self.data[0].len();
        let mut data: Vec<Vec<u64>> = Vec::new();
        let mut i: usize = 0;
        while i < cols
            invariant
                i <= cols,
                self.wf(),
                rows == self.spec_rows(),
                cols == self.spec_cols(),
                data@.len() == i,
                forall|k: int|
                    0 <= k < i ==> (#[trigger] data@[k])@.len() == rows,
                forall|k: int, j: int|
                    0 <= k < i && 0 <= j < rows ==> data@[k]@[j] == self@[j][k],
            decreases cols - i,
        {
            let mut row: Vec<u64> = Vec::new();
            let mut j: usize = 0;
            while j < rows
                invariant
                    j <= rows,
                    i < cols,
                    self.wf(),
                    rows == self.spec_rows(),
                    cols == self.spec_cols(),
                    row@.len() == j,
                    forall|t: int| 0 <= t < j ==> row@[t] == self@[t][i as int],
                decreases rows - j,
            {
                proof {
                    assert(self@[j as int].len() == self.spec_cols());
                }
                row.push(self.data[j][i]);
                j = j + 1;
            }
            data.push(row);
            i = i + 1;
        }
        Matrix { data }
    }
}

} // verus!
