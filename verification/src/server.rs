//! Server-side databases. A database instance owns the plaintext matrix and
//! the derived `(params, hint, A)` triple; it is born empty and becomes
//! ready on its first successful update, which replaces the whole quadruple
//! at once. A failed update leaves the previous generation untouched.
use crate::codec::{encode_data, encode_side, encode_spec, records_view};
use crate::error::PirError;
use crate::matrix::{col_of, dot_mod, Matrix, Vector};
use crate::params::{gen_params, SimplePIRParams};
use crate::pir::{a_matrix_spec, gen_hint, hint_matrix_spec, process_query};
use vstd::prelude::*;

verus! {

/// One SimplePIR database instance: the plaintext matrix `D` and, once
/// ready, the derived parameters, hint `H = D * A` and public matrix `A`.
pub struct SimplePirDatabase {
    pub params: Option<SimplePIRParams>,
    pub data: Matrix,
    pub hint: Option<Matrix>,
    pub a: Option<Matrix>,
}

impl SimplePirDatabase {
    /// A database is ready once its first update has installed parameters.
    pub open spec fn ready(&self) -> bool {
        self.params is Some
    }

    /// The installed parameters; meaningful only when ready.
    pub open spec fn spec_params(&self) -> SimplePIRParams {
        self.params->Some_0
    }

    /// Well-formed: the quadruple is consistent — the hint is `D * A` for
    /// the `A` regenerated from the parameters' seed, and the shapes agree.
    pub open spec fn wf(&self) -> bool {
        &&& self.data.wf()
        &&& match self.params {
            Some(p) => {
                &&& p.wf()
                &&& p.m == self.data.spec_rows()
                &&& p.m == self.data.spec_cols()
                &&& p.n == self.data.spec_cols()
                &&& p.m * p.n <= usize::MAX
                &&& self.hint is Some
                &&& self.a is Some
                &&& self.a->Some_0.wf()
                &&& self.a->Some_0.spec_rows() == p.m
                &&& self.a->Some_0.spec_cols() == p.n
                &&& self.a->Some_0@ == a_matrix_spec(p.seed, p.m as nat, p.n as nat)
                &&& self.hint->Some_0.wf()
                &&& self.hint->Some_0.spec_rows() == p.m
                &&& self.hint->Some_0.spec_cols() == p.n
                &&& self.hint->Some_0@ == hint_matrix_spec(self.data@, self.a->Some_0@)
            },
            None => self.hint is None && self.a is None,
        }
    }

    /// Wraps a plaintext matrix as a not-yet-ready database.
    pub fn new(data: Matrix) -> (r: SimplePirDatabase)
        requires
            data.wf(),
        ensures
            r.wf(),
            !r.ready(),
            r.data@ == data@,
    {
        SimplePirDatabase { data, params: None, hint: None, a: None }
    }

    /// Replaces the database matrix and atomically re-derives fresh
    /// parameters (with a fresh seed), hint and public matrix. Rejects a
    /// non-square matrix and a matrix too large to index; the previous
    /// generation then stays live.
    pub fn update_db(&mut self, data: Matrix) -> (r: Result<(), PirError>)
        requires
            old(self).wf(),
            data.wf(),
        ensures
            final(self).wf(),
            match r {
                Ok(_) => {
                    &&& data.spec_rows() == data.spec_cols()
                    &&& data.spec_rows() * data.spec_cols() <= usize::MAX
                    &&& final(self).ready()
                    &&& final(self).data@ == data@
                    &&& final(self).spec_params().m == data.spec_rows()
                    &&& final(self).spec_params().n == data.spec_cols()
                    &&& final(self).spec_params().mod_power == 64
                },
                Err(e) => {
                    &&& !(data.spec_rows() == data.spec_cols() && data.spec_rows()
                        * data.spec_cols() <= usize::MAX)
                    &&& *final(self) == *old(self)
                    &&& e matches PirError::Database(_)
                },
            },
    {
        let rows = data.rows();
        let cols = data.cols();
        if rows != cols {
            return Err(PirError::Database("Database matrix must be square".to_owned()));
        }
        if usize::MAX / rows < cols {
            proof {
                assert(rows * cols > usize::MAX) by (nonlinear_arith)
                    requires
                        rows >= 1,
                        cols >= 1,
                        usize::MAX / rows < cols,
                        usize::MAX / rows == usize::MAX as int / rows as int,
                ;
            }
            return Err(PirError::Database("Database matrix is too large".to_owned()));
        }
        proof {
            assert(rows * cols <= usize::MAX) by (nonlinear_arith)
                requires
                    rows >= 1,
                    cols >= 1,
                    usize::MAX / rows >= cols,
                    usize::MAX / rows == usize::MAX as int / rows as int,
            ;
        }
        let params = gen_params(rows, cols, 64);
        let (hint, a) = gen_hint(&params, &data);
        proof {
            assert(hint@ =~= hint_matrix_spec(data@, a@)) by {
                assert forall|i: int| 0 <= i < hint@.len() implies hint@[i] =~= hint_matrix_spec(
                    data@,
                    a@,
                )[i] by {
                    assert(hint@[i].len() == params.n);
                }
            }
        }
        self.params = Some(params);
        self.data = data;
        self.hint = Some(hint);
        self.a = Some(a);
        Ok(())
    }

    /// Answers a query: `r = D * c mod q`. Fails when the database is not
    /// ready or the query's length is not the matrix side.
    pub fn respond(&self, query: &Vector) -> (r: Result<Vector, PirError>)
        requires
            self.wf(),
        ensures
            match r {
                Ok(resp) => {
                    &&& self.ready()
                    &&& query@.len() == self.data.spec_cols()
                    &&& resp@.len() == self.data.spec_rows()
                    &&& forall|i: int|
                        0 <= i < resp@.len() ==> resp@[i] == dot_mod(self.data@[i], query@)
                },
                Err(e) => {
                    &&& !(self.ready() && query@.len() == self.data.spec_cols())
                    &&& (e matches PirError::Database(_) <==> !self.ready())
                    &&& (e matches PirError::InvalidInput(_) <==> self.ready())
                },
            },
    {
        let params = match &self.params {
            Some(p) => p,
            None => {
                return Err(PirError::Database("Database not initialized".to_owned()));
            },
        };
        if query.len() != self.data.cols() {
            return Err(PirError::InvalidInput("Query length must match the matrix side".to_owned()));
        }
        Ok(process_query(&self.data, query, params.q()))
    }

    /// The installed parameters; fails when the database is not ready.
    pub fn params(&self) -> (r: Result<&SimplePIRParams, PirError>)
        ensures
            match r {
                Ok(p) => self.ready() && *p == self.spec_params(),
                Err(e) => !self.ready() && e matches PirError::Database(_),
            },
    {
        match &self.params {
            Some(p) => Ok(p),
            None => Err(PirError::Database("Database not initialized".to_owned())),
        }
    }

    /// The published hint `H = D * A`; fails when the database is not ready.
    pub fn hint(&self) -> (r: Result<&Matrix, PirError>)
        requires
            self.wf(),
        ensures
            match r {
                Ok(h) => self.ready() && *h == self.hint->Some_0,
                Err(e) => !self.ready() && e matches PirError::Database(_),
            },
    {
        match &self.hint {
            Some(h) => Ok(h),
            None => Err(PirError::Database("Database not initialized".to_owned())),
        }
    }

    /// The public matrix `A`; fails when the database is not ready.
    pub fn a(&self) -> (r: Result<&Matrix, PirError>)
        requires
            self.wf(),
        ensures
            match r {
                Ok(a) => self.ready() && *a == self.a->Some_0,
                Err(e) => !self.ready() && e matches PirError::Database(_),
            },
    {
        match &self.a {
            Some(a) => Ok(a),
            None => Err(PirError::Database("Database not initialized".to_owned())),
        }
    }
}

/// The embedding-stage database: its matrix holds one quantised embedding
/// per row, squared up with zeros. The embedder itself is an external
/// collaborator; this type receives the finished embedding matrix.
pub struct EmbeddingDatabase {
    pub db: SimplePirDatabase,
}

impl EmbeddingDatabase {
    /// Everything the inner database guarantees.
    pub open spec fn wf(&self) -> bool {
        self.db.wf()
    }

    /// An empty, not-yet-ready database around a 1 x 1 zero sentinel.
    pub fn new() -> (r: EmbeddingDatabase)
        ensures
            r.wf(),
            !r.db.ready(),
    {
        EmbeddingDatabase { db: SimplePirDatabase::new(Matrix::zeros(1, 1)) }
    }

    /// Installs a fresh embedding matrix: rejects a non-square one and
    /// leaves the previous generation untouched on failure.
    pub fn update_from_embeddings(&mut self, embeddings: Matrix) -> (r: Result<(), PirError>)
        requires
            old(self).wf(),
            embeddings.wf(),
        ensures
            final(self).wf(),
            match r {
                Ok(_) => {
                    &&& embeddings.spec_rows() == embeddings.spec_cols()
                    &&& embeddings.spec_rows() * embeddings.spec_cols() <= usize::MAX
                    &&& final(self).db.ready()
                    &&& final(self).db.data@ == embeddings@
                    &&& final(self).db.spec_params().mod_power == 64
                    &&& final(self).db.spec_params().m == embeddings.spec_rows()
                },
                Err(e) => {
                    &&& !(embeddings.spec_rows() == embeddings.spec_cols()
                        && embeddings.spec_rows() * embeddings.spec_cols() <= usize::MAX)
                    &&& *final(self) == *old(self)
                    &&& e matches PirError::Database(_)
                },
            },
    {
        let rows = embeddings.rows();
        let cols = embeddings.cols();
        if rows != cols {
            return Err(PirError::Database("Embedding matrix must be square".to_owned()));
        }
        self.db.update_db(embeddings)
    }

    /// Answers a query against the current generation.
    pub fn respond(&self, query: &Vector) -> (r: Result<Vector, PirError>)
        requires
            self.wf(),
        ensures
            match r {
                Ok(resp) => {
                    &&& self.db.ready()
                    &&& query@.len() == self.db.data.spec_cols()
                    &&& resp@.len() == self.db.data.spec_rows()
                    &&& forall|i: int|
                        0 <= i < resp@.len() ==> resp@[i] == dot_mod(self.db.data@[i], query@)
                },
                Err(e) => {
                    &&& !(self.db.ready() && query@.len() == self.db.data.spec_cols())
                    &&& (e matches PirError::Database(_) <==> !self.db.ready())
                    &&& (e matches PirError::InvalidInput(_) <==> self.db.ready())
                },
            },
    {
        self.db.respond(query)
    }
}

/// The encoding-stage database: its matrix holds the records' bytes, packed
/// column-wise by the codec.
pub struct EncodingDatabase {
    pub db: SimplePirDatabase,
}

impl EncodingDatabase {
    /// Everything the inner database guarantees.
    pub open spec fn wf(&self) -> bool {
        self.db.wf()
    }

    /// An empty, not-yet-ready database around a 1 x 1 zero sentinel.
    pub fn new() -> (r: EncodingDatabase)
        ensures
            r.wf(),
            !r.db.ready(),
    {
        EncodingDatabase { db: SimplePirDatabase::new(Matrix::zeros(1, 1)) }
    }

    /// Encodes fresh records and installs the resulting matrix. Fails on an
    /// empty record list (or an impossibly large encoding), leaving the
    /// previous generation untouched.
    pub fn update_from_records(&mut self, records: &Vec<String>) -> (r: Result<(), PirError>)
        requires
            old(self).wf(),
        ensures
            final(self).wf(),
            match r {
                Ok(_) => {
                    &&& records@.len() >= 1
                    &&& encode_side(records_view(records@)) * encode_side(records_view(records@))
                        <= usize::MAX
                    &&& final(self).db.ready()
                    &&& final(self).db.data@ == encode_spec(records_view(records@))
                    &&& final(self).db.spec_params().mod_power == 64
                    &&& final(self).db.spec_params().m == encode_side(records_view(records@))
                },
                Err(e) => {
                    &&& *final(self) == *old(self)
                    &&& !(records@.len() >= 1 && encode_side(records_view(records@))
                        * encode_side(records_view(records@)) <= usize::MAX)
                    &&& (records@.len() == 0 ==> e matches PirError::Encoding(_))
                    &&& (records@.len() >= 1 ==> e matches PirError::Database(_))
                },
            },
    {
        let encodings = match encode_data(records) {
            Ok(m) => m,
            Err(_) => {
                return Err(PirError::Encoding("Failed to encode records".to_owned()));
            },
        };
        proof {
            assert(encodings.spec_rows() == encodings.spec_cols());
        }
        self.db.update_db(encodings)
    }

    /// Answers a query against the current generation.
    pub fn respond(&self, query: &Vector) -> (r: Result<Vector, PirError>)
        requires
            self.wf(),
        ensures
            match r {
                Ok(resp) => {
                    &&& self.db.ready()
                    &&& query@.len() == self.db.data.spec_cols()
                    &&& resp@.len() == self.db.data.spec_rows()
                    &&& forall|i: int|
                        0 <= i < resp@.len() ==> resp@[i] == dot_mod(self.db.data@[i], query@)
                },
                Err(e) => {
                    &&& !(self.db.ready() && query@.len() == self.db.data.spec_cols())
                    &&& (e matches PirError::Database(_) <==> !self.db.ready())
                    &&& (e matches PirError::InvalidInput(_) <==> self.db.ready())
                },
            },
    {
        self.db.respond(query)
    }
}

} // verus!
