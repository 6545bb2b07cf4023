//! Client orchestration of the two-stage pipeline: query the embedding
//! database with a quantised text embedding, take the index of the largest
//! recovered entry, and fetch that index's record from the encoding
//! database with a one-hot query. The text embedder itself is an external
//! collaborator: callers hand in the embedding as a vector of residues.
use crate::error::PirError;
use crate::matrix::Vector;
use crate::params::SimplePIRParams;
use crate::pir::{generate_query, is_cipher_of, is_noise, recover, round_output};
use crate::server::{EmbeddingDatabase, EncodingDatabase, SimplePirDatabase};
use vstd::prelude::*;

verus! {

/// A vector adjusted to length `m`: shorter inputs are zero-padded, longer
/// ones truncated.
pub open spec fn adjust_spec(v: Seq<u64>, m: nat) -> Seq<u64> {
    Seq::new(
        m,
        |i: int|
            if i < v.len() {
                v[i]
            } else {
                0u64
            },
    )
}

/// Adjusts a vector to the database's sample count `m`: zero-pads a shorter
/// vector, truncates a longer one.
pub fn adjust_embedding(embedding: &Vector, m: usize) -> (r: Vector)
    ensures
        r@ == adjust_spec(embedding@, m as nat),
{
    let n = embedding.len();
    let mut data: Vec<u64> = Vec::new();
    let mut i: usize = 0;
    while i < m
        invariant
            i <= m,
            n == embedding@.len(),
            data@.len() == i,
            forall|k: int|
                0 <= k < i ==> data@[k] == (if k < embedding@.len() {
                    embedding@[k]
                } else {
                    0u64
                }),
        decreases m - i,
    {
        if i < n {
            data.push(embedding.get(i));
        } else {
            data.push(0);
        }
        i = i + 1;
    }
    let r = Vector { data };
    proof {
        assert(r@ =~= adjust_spec(embedding@, m as nat));
    }
    r
}

/// `idx` is the index of the largest entry, ties resolved to the first
/// occurrence.
pub open spec fn is_argmax(y: Seq<i64>, idx: int) -> bool {
    &&& 0 <= idx < y.len()
    &&& forall|j: int| 0 <= j < y.len() ==> (#[trigger] y[j]) <= y[idx]
    &&& forall|j: int| 0 <= j < idx ==> (#[trigger] y[j]) < y[idx]
}

/// The index of the largest entry, ties resolved to the first occurrence.
pub open spec fn argmax_spec(y: Seq<i64>) -> int {
    choose|i: int| is_argmax(y, i)
}

/// Every non-empty vector has an index satisfying `is_argmax`.
pub proof fn lemma_argmax_exists(y: Seq<i64>) -> (idx: int)
    requires
        y.len() >= 1,
    ensures
        is_argmax(y, idx),
    decreases y.len(),
{
    if y.len() == 1 {
        0
    } else {
        let prev = lemma_argmax_exists(y.drop_last());
        assert(y.drop_last()[prev] == y[prev]);
        if y.last() > y[prev] {
            let last = y.len() - 1;
            assert forall|j: int| 0 <= j < y.len() implies (#[trigger] y[j]) <= y[last] by {
                if j < last {
                    assert(y.drop_last()[j] == y[j]);
                    assert(y.drop_last()[j] <= y.drop_last()[prev]);
                }
            }
            assert forall|j: int| 0 <= j < last implies (#[trigger] y[j]) < y[last] by {
                assert(y.drop_last()[j] == y[j]);
                assert(y.drop_last()[j] <= y.drop_last()[prev]);
            }
            last
        } else {
            assert forall|j: int| 0 <= j < y.len() implies (#[trigger] y[j]) <= y[prev] by {
                if j < y.len() - 1 {
                    assert(y.drop_last()[j] == y[j]);
                    assert(y.drop_last()[j] <= y.drop_last()[prev]);
                }
            }
            assert forall|j: int| 0 <= j < prev implies (#[trigger] y[j]) < y[prev] by {
                assert(y.drop_last()[j] == y[j]);
                assert(y.drop_last()[j] < y.drop_last()[prev]);
            }
            prev
        }
    }
}

/// At most one index satisfies `is_argmax`.
pub proof fn lemma_argmax_unique(y: Seq<i64>, i1: int, i2: int)
    requires
        is_argmax(y, i1),
        is_argmax(y, i2),
    ensures
        i1 == i2,
{
    assert(is_argmax(y, i1));
    assert(is_argmax(y, i2));
    if i1 < i2 {
        assert(y[i1] < y[i2]);
        assert(y[i2] <= y[i1]);
        assert(false);
    }
    if i2 < i1 {
        assert(y[i2] < y[i1]);
        assert(y[i1] <= y[i2]);
        assert(false);
    }
}

/// The index of the largest entry; the first one when several are equal.
pub fn argmax(y: &Vec<i64>) -> (idx: usize)
    requires
        y@.len() >= 1,
    ensures
        is_argmax(y@, idx as int),
        idx as int == argmax_spec(y@),
{
    let n = y.len();
    let mut best: usize = 0;
    let mut j: usize = 1;
    while j < n
        invariant
            1 <= j <= n,
            best < j,
            n == y@.len(),
            forall|k: int| 0 <= k < j ==> (#[trigger] y@[k]) <= y@[best as int],
            forall|k: int| 0 <= k < best ==> (#[trigger] y@[k]) < y@[best as int],
        decreases n - j,
    {
        if y[j] > y[best] {
            best = j;
        }
        j = j + 1;
    }
    proof {
        assert(is_argmax(y@, best as int));
        lemma_argmax_unique(y@, best as int, argmax_spec(y@));
    }
    best
}

/// The one-hot vector of length `len` selecting position `idx`.
pub open spec fn unit_spec(len: nat, idx: int) -> Seq<u64> {
    Seq::new(
        len,
        |i: int|
            if i == idx {
                1u64
            } else {
                0u64
            },
    )
}

/// Builds the one-hot vector selecting position `idx`.
pub fn unit_vector(len: usize, idx: usize) -> (r: Vector)
    requires
        idx < len,
    ensures
        r@ == unit_spec(len as nat, idx as int),
{
    let mut v = Vector::zeros(len);
    v.set(idx, 1);
    proof {
        assert(v@ =~= unit_spec(len as nat, idx as int));
    }
    v
}

/// Entry `a` orders strictly before entry `b`: a larger value, or the same
/// value at a smaller index.
pub open spec fn beats(y: Seq<i64>, a: int, b: int) -> bool {
    y[a] > y[b] || (y[a] == y[b] && a < b)
}

/// `idxs` lists the `k` first entries of `y` in descending order of value,
/// ties by ascending index: the listed indices are valid, they are sorted by
/// that order, and every listed entry orders before every unlisted one.
pub open spec fn is_top_k(y: Seq<i64>, k: nat, idxs: Seq<usize>) -> bool {
    &&& idxs.len() == (if k < y.len() {
        k as int
    } else {
        y.len() as int
    })
    &&& forall|t: int| 0 <= t < idxs.len() ==> (#[trigger] idxs[t]) < y.len()
    &&& forall|t1: int, t2: int|
        0 <= t1 < t2 < idxs.len() ==> beats(
            y,
            #[trigger] idxs[t1] as int,
            #[trigger] idxs[t2] as int,
        )
    &&& forall|t: int, j: int|
        #![trigger idxs[t], idxs.contains(j as usize)]
        0 <= t < idxs.len() && 0 <= j < y.len() && !idxs.contains(j as usize) ==> beats(
            y,
            idxs[t] as int,
            j,
        )
}

/// Removing one position from a duplicate-free list removes exactly that
/// value.
proof fn lemma_remove_effect(s: Seq<usize>, pos: int)
    requires
        0 <= pos < s.len(),
        s.no_duplicates(),
    ensures
        s.remove(pos).no_duplicates(),
        forall|x: usize| #[trigger] s.remove(pos).contains(x) <==> (s.contains(x) && x != s[pos]),
{
    let r = s.remove(pos);
    assert forall|x: usize| #[trigger] r.contains(x) <==> (s.contains(x) && x != s[pos]) by {
        if r.contains(x) {
            let w = choose|w: int| 0 <= w < r.len() && r[w] == x;
            if w < pos {
                assert(s[w] == x);
                assert(s.contains(x));
            } else {
                assert(s[w + 1] == x);
                assert(s.contains(x));
            }
        }
        if s.contains(x) && x != s[pos] {
            let w = choose|w: int| 0 <= w < s.len() && s[w] == x;
            if w < pos {
                assert(r[w] == x);
                assert(r.contains(x));
            } else {
                assert(w > pos);
                assert(r[w - 1] == x);
                assert(r.contains(x));
            }
        }
    }
}

/// The indices of the `k` largest entries, in descending order of value,
/// ties by ascending index. Returns every index when `k` exceeds the length.
pub fn top_k_indices(y: &Vec<i64>, k: usize) -> (idxs: Vec<usize>)
    ensures
        is_top_k(y@, k as nat, idxs@),
{
    let n = y.len();
    let count = if k < n {
        k
    } else {
        n
    };
    // the candidate indices not yet taken
    let mut rem: Vec<usize> = Vec::new();
    let mut i: usize = 0;
    while i < n
        invariant
            i <= n,
            rem@.len() == i,
            forall|u: int| 0 <= u < i ==> #[trigger] rem@[u] == u as usize,
        decreases n - i,
    {
        rem.push(i);
        i = i + 1;
    }
    proof {
        assert(rem@.no_duplicates());
        assert forall|j: int| 0 <= j < n implies #[trigger] rem@.contains(j as usize) by {
            assert(rem@[j] == j as usize);
        }
    }
    let mut picked: Vec<usize> = Vec::new();
    let mut t: usize = 0;
    while t < count
        invariant
            t <= count,
            count <= n,
            n == y@.len(),
            count == (if k < n {
                k as int
            } else {
                n as int
            }),
            picked@.len() == t,
            rem@.len() == n - t,
            rem@.no_duplicates(),
            forall|u: int| 0 <= u < rem@.len() ==> (#[trigger] rem@[u]) < n,
            forall|u: int| 0 <= u < picked@.len() ==> (#[trigger] picked@[u]) < n,
            forall|j: int|
                0 <= j < n ==> (#[trigger] picked@.contains(j as usize) <==> !rem@.contains(
                    j as usize,
                )),
            forall|t1: int, t2: int|
                0 <= t1 < t2 < t ==> beats(
                    y@,
                    #[trigger] picked@[t1] as int,
                    #[trigger] picked@[t2] as int,
                ),
            forall|u: int, w: int|
                0 <= u < picked@.len() && 0 <= w < rem@.len() ==> beats(
                    y@,
                    #[trigger] picked@[u] as int,
                    #[trigger] rem@[w] as int,
                ),
        decreases count - t,
    {
        let rem_len = rem.len();
        let mut best_pos: usize = 0;
        let mut w: usize = 1;
        while w < rem_len
            invariant
                1 <= w <= rem_len,
                best_pos < w,
                rem_len == rem@.len(),
                rem@.no_duplicates(),
                n == y@.len(),
                forall|u: int| 0 <= u < rem@.len() ==> (#[trigger] rem@[u]) < n,
                forall|u: int|
                    0 <= u < w && u != best_pos ==> beats(
                        y@,
                        rem@[best_pos as int] as int,
                        #[trigger] rem@[u] as int,
                    ),
            decreases rem_len - w,
        {
            let rb = rem[best_pos];
            let rw = rem[w];
            if y[rw as usize] > y[rb as usize] || (y[rw as usize] == y[rb as usize] && rw < rb) {
                best_pos = w;
            }
            w = w + 1;
        }
        let ghost rem0 = rem@;
        let ghost picked0 = picked@;
        let b = rem.remove(best_pos);
        proof {
            lemma_remove_effect(rem0, best_pos as int);
        }
        picked.push(b);
        proof {
            broadcast use vstd::seq_lib::lemma_seq_contains_after_push;

            // the taken entry orders before everything left in `rem`
            assert forall|wq: int| 0 <= wq < rem@.len() implies beats(
                y@,
                b as int,
                #[trigger] rem@[wq] as int,
            ) by {
                let x = rem@[wq];
                assert(rem@.contains(x));
                assert(rem0.contains(x) && x != b);
                let u = choose|u: int| 0 <= u < rem0.len() && rem0[u] == x;
                assert(u != best_pos);
                assert(beats(y@, rem0[best_pos as int] as int, rem0[u] as int));
            }
            // everything previously taken orders before entries of `rem0`
            assert forall|uq: int, wq: int|
                0 <= uq < picked@.len() && 0 <= wq < rem@.len() implies beats(
                y@,
                #[trigger] picked@[uq] as int,
                #[trigger] rem@[wq] as int,
            ) by {
                let x = rem@[wq];
                assert(rem@.contains(x));
                assert(rem0.contains(x));
                let u = choose|u: int| 0 <= u < rem0.len() && rem0[u] == x;
                if uq < picked0.len() {
                    assert(picked@[uq] == picked0[uq]);
                    assert(beats(y@, picked0[uq] as int, rem0[u] as int));
                } else {
                    assert(picked@[uq] == b);
                }
            }
            // the new entry is ordered after everything already taken
            assert forall|t1: int, t2: int| 0 <= t1 < t2 < picked@.len() implies beats(
                y@,
                #[trigger] picked@[t1] as int,
                #[trigger] picked@[t2] as int,
            ) by {
                if t2 == picked@.len() - 1 {
                    assert(picked@[t2] == b);
                    assert(rem0.contains(b)) by {
                        assert(rem0[best_pos as int] == b);
                    }
                    assert(beats(y@, picked0[t1] as int, b as int));
                }
            }
            // the partition between taken and remaining is maintained
            assert forall|j: int| 0 <= j < n implies (#[trigger] picked@.contains(j as usize)
                <==> !rem@.contains(j as usize)) by {
                let x = j as usize;
                assert(picked@.contains(x) <==> picked0.contains(x) || x == b);
                assert(rem@.contains(x) <==> rem0.contains(x) && x != b);
                assert(rem0.contains(b)) by {
                    assert(rem0[best_pos as int] == b);
                }
            }
        }
        t = t + 1;
    }
    proof {
        // all unlisted indices remain in `rem` and are therefore beaten
        assert forall|tq: int, j: int|
            #![trigger picked@[tq], picked@.contains(j as usize)]
            0 <= tq < picked@.len() && 0 <= j < n && !picked@.contains(j as usize) implies beats(
            y@,
            picked@[tq] as int,
            j,
        ) by {
            assert(rem@.contains(j as usize));
            let w = choose|w: int| 0 <= w < rem@.len() && rem@[w] == j as usize;
            assert(beats(y@, picked@[tq] as int, rem@[w] as int));
        }
    }
    picked
}


/// The stage output matches one PIR round: `out` is what recovery yields
/// for database `db`, plaintext `v`, secret `s` and noise `eta`.
pub open spec fn matches_round(
    db: SimplePirDatabase,
    v: Seq<u64>,
    s: Seq<u64>,
    eta: Seq<int>,
    out: Seq<i64>,
) -> bool {
    let r = round_output(db.spec_params(), db.data@, v, s, eta);
    &&& out.len() == r.len()
    &&& forall|i: int| 0 <= i < out.len() ==> out[i] == r[i]
}

/// What one successful stage against a ready database guarantees: for some
/// fresh secret and some bounded noise, the stage's output is exactly that
/// round's recovery.
pub open spec fn stage_post(db: SimplePirDatabase, v: Seq<u64>, out: Seq<i64>) -> bool {
    exists|s: Seq<u64>, eta: Seq<int>|
        {
            &&& s.len() == db.spec_params().n
            &&& is_noise(eta, db.spec_params().m as nat)
            &&& #[trigger] matches_round(db, v, s, eta, out)
        }
}

/// The client of the two-stage pipeline, holding one database per stage.
pub struct Client {
    pub embedding_db: EmbeddingDatabase,
    pub encoding_db: EncodingDatabase,
}

impl Client {
    /// Both databases are internally consistent.
    pub open spec fn wf(&self) -> bool {
        &&& self.embedding_db.wf()
        &&& self.encoding_db.wf()
    }

    /// Both databases have seen their first update.
    pub open spec fn both_ready(&self) -> bool {
        &&& self.embedding_db.db.ready()
        &&& self.encoding_db.db.ready()
    }

    /// A client around two empty local databases.
    pub fn new_local() -> (r: Client)
        ensures
            r.wf(),
            !r.embedding_db.db.ready(),
            !r.encoding_db.db.ready(),
    {
        Client { embedding_db: EmbeddingDatabase::new(), encoding_db: EncodingDatabase::new() }
    }

    /// Installs a fresh generation in both databases: the records into the
    /// encoding database, their embedding matrix into the embedding
    /// database. On failure the untouched halves keep their previous
    /// generation.
    pub fn update(&mut self, records: &Vec<String>, embeddings: crate::matrix::Matrix) -> (r:
        Result<(), PirError>)
        requires
            old(self).wf(),
            embeddings.wf(),
        ensures
            final(self).wf(),
            match r {
                Ok(_) => {
                    &&& records@.len() >= 1
                    &&& crate::codec::encode_side(crate::codec::records_view(records@))
                        * crate::codec::encode_side(crate::codec::records_view(records@))
                        <= usize::MAX
                    &&& embeddings.spec_rows() == embeddings.spec_cols()
                    &&& embeddings.spec_rows() * embeddings.spec_cols() <= usize::MAX
                    &&& final(self).both_ready()
                    &&& final(self).encoding_db.db.data@ == crate::codec::encode_spec(
                        crate::codec::records_view(records@),
                    )
                    &&& final(self).encoding_db.db.spec_params().mod_power == 64
                    &&& final(self).encoding_db.db.spec_params().m == crate::codec::encode_side(
                        crate::codec::records_view(records@),
                    )
                    &&& final(self).embedding_db.db.data@ == embeddings@
                    &&& final(self).embedding_db.db.spec_params().mod_power == 64
                    &&& final(self).embedding_db.db.spec_params().m == embeddings.spec_rows()
                },
                Err(_) => {
                    // the pair is not replaced atomically: the encoding half
                    // goes first, so it may already hold the new generation
                    // when the embedding half is rejected
                    &&& !({
                        &&& records@.len() >= 1
                        &&& crate::codec::encode_side(crate::codec::records_view(records@))
                            * crate::codec::encode_side(crate::codec::records_view(records@))
                            <= usize::MAX
                        &&& embeddings.spec_rows() == embeddings.spec_cols()
                        &&& embeddings.spec_rows() * embeddings.spec_cols() <= usize::MAX
                    })
                    &&& final(self).embedding_db == old(self).embedding_db
                    &&& (!(records@.len() >= 1 && crate::codec::encode_side(
                        crate::codec::records_view(records@),
                    ) * crate::codec::encode_side(crate::codec::records_view(records@))
                        <= usize::MAX) ==> *final(self) == *old(self))
                    &&& ((records@.len() >= 1 && crate::codec::encode_side(
                        crate::codec::records_view(records@),
                    ) * crate::codec::encode_side(crate::codec::records_view(records@))
                        <= usize::MAX) ==> {
                        &&& final(self).encoding_db.db.ready()
                        &&& final(self).encoding_db.db.data@ == crate::codec::encode_spec(
                            crate::codec::records_view(records@),
                        )
                        &&& !(embeddings.spec_rows() == embeddings.spec_cols()
                            && embeddings.spec_rows() * embeddings.spec_cols() <= usize::MAX)
                    })
                },
            },
    {
        match self.encoding_db.update_from_records(records) {
            Ok(_) => {},
            Err(e) => {
                return Err(e);
            },
        }
        match self.embedding_db.update_from_embeddings(embeddings) {
            Ok(_) => Ok(()),
            Err(e) => Err(e),
        }
    }

    /// One semantic query. The caller supplies the quantised text embedding;
    /// the first stage recovers the similarity column, the index of its
    /// largest entry selects a record, and the second stage retrieves that
    /// record's encoded column with a one-hot query. Fails exactly when a
    /// database has not been initialised.
    pub fn query(&self, embedding: &Vector) -> (r: Result<Vec<i64>, PirError>)
        requires
            self.wf(),
        ensures
            match r {
                Ok(out) => {
                    &&& self.both_ready()
                    &&& exists|y1: Seq<i64>|
                        {
                            &&& #[trigger] stage_post(
                                self.embedding_db.db,
                                adjust_spec(
                                    embedding@,
                                    self.embedding_db.db.spec_params().m as nat,
                                ),
                                y1,
                            )
                            &&& y1.len() >= 1
                            &&& stage_post(
                                self.encoding_db.db,
                                adjust_spec(
                                    unit_spec(y1.len(), argmax_spec(y1)),
                                    self.encoding_db.db.spec_params().m as nat,
                                ),
                                out@,
                            )
                        }
                },
                Err(e) => !self.both_ready() && e matches PirError::Database(_),
            },
    {
        let db1 = &self.embedding_db.db;
        let db2 = &self.encoding_db.db;
        let params1 = match db1.params() {
            Ok(p) => *p,
            Err(e) => {
                return Err(e);
            },
        };
        let params2 = match db2.params() {
            Ok(p) => *p,
            Err(e) => {
                return Err(e);
            },
        };
        let a1 = match db1.a() {
            Ok(a) => a,
            Err(e) => {
                return Err(e);
            },
        };
        let hint1 = match db1.hint() {
            Ok(h) => h,
            Err(e) => {
                return Err(e);
            },
        };
        // first stage: similarity lookup
        let adj1 = adjust_embedding(embedding, params1.m);
        let (s1, c1) = generate_query(&params1, &adj1, a1);
        let resp1 = match db1.respond(&c1) {
            Ok(resp) => resp,
            Err(e) => {
                proof {
                    assert(false);
                }
                return Err(e);
            },
        };
        let y1 = recover(hint1, &s1, &resp1, &params1);
        proof {
            lemma_stage(*db1, adj1@, s1@, a1@, c1@, resp1@, y1@);
        }
        // route the best match into a one-hot query
        let idx = argmax(&y1);
        let u = unit_vector(y1.len(), idx);
        // second stage: record retrieval
        let a2 = match db2.a() {
            Ok(a) => a,
            Err(e) => {
                proof {
                    assert(false);
                }
                return Err(e);
            },
        };
        let hint2 = match db2.hint() {
            Ok(h) => h,
            Err(e) => {
                proof {
                    assert(false);
                }
                return Err(e);
            },
        };
        let adj2 = adjust_embedding(&u, params2.m);
        let (s2, c2) = generate_query(&params2, &adj2, a2);
        let resp2 = match db2.respond(&c2) {
            Ok(resp) => resp,
            Err(e) => {
                proof {
                    assert(false);
                }
                return Err(e);
            },
        };
        let y2 = recover(hint2, &s2, &resp2, &params2);
        proof {
            lemma_stage(*db2, adj2@, s2@, a2@, c2@, resp2@, y2@);
            assert(stage_post(
                self.embedding_db.db,
                adjust_spec(embedding@, self.embedding_db.db.spec_params().m as nat),
                y1@,
            ));
        }
        Ok(y2)
    }

    /// The top-`k` variant: the first stage runs once, and the indices of
    /// its `k` largest recovered entries each drive one one-hot retrieval
    /// against the encoding database, best match first. Rejects `k == 0`;
    /// otherwise fails exactly when a database has not been initialised.
    pub fn query_top_k(&self, embedding: &Vector, k: usize) -> (r: Result<
        Vec<Vec<i64>>,
        PirError,
    >)
        requires
            self.wf(),
        ensures
            match r {
                Ok(outs) => {
                    &&& k >= 1
                    &&& self.both_ready()
                    &&& exists|y1: Seq<i64>, idxs: Seq<usize>|
                        {
                            &&& #[trigger] stage_post(
                                self.embedding_db.db,
                                adjust_spec(
                                    embedding@,
                                    self.embedding_db.db.spec_params().m as nat,
                                ),
                                y1,
                            )
                            &&& #[trigger] is_top_k(y1, k as nat, idxs)
                            &&& outs@.len() == idxs.len()
                            &&& forall|t: int|
                                0 <= t < idxs.len() ==> stage_post(
                                    self.encoding_db.db,
                                    adjust_spec(
                                        unit_spec(y1.len(), idxs[t] as int),
                                        self.encoding_db.db.spec_params().m as nat,
                                    ),
                                    (#[trigger] outs@[t])@,
                                )
                        }
                },
                Err(e) => {
                    &&& (k == 0 <==> e matches PirError::InvalidInput(_))
                    &&& (k >= 1 ==> !self.both_ready() && e matches PirError::Database(_))
                },
            },
    {
        if k == 0 {
            return Err(PirError::InvalidInput("k must be greater than 0".to_owned()));
        }
        let db1 = &self.embedding_db.db;
        let db2 = &self.encoding_db.db;
        let params1 = match db1.params() {
            Ok(p) => *p,
            Err(e) => {
                return Err(e);
            },
        };
        let params2 = match db2.params() {
            Ok(p) => *p,
            Err(e) => {
                return Err(e);
            },
        };
        let a1 = match db1.a() {
            Ok(a) => a,
            Err(e) => {
                return Err(e);
            },
        };
        let hint1 = match db1.hint() {
            Ok(h) => h,
            Err(e) => {
                return Err(e);
            },
        };
        let a2 = match db2.a() {
            Ok(a) => a,
            Err(e) => {
                proof {
                    assert(false);
                }
                return Err(e);
            },
        };
        let hint2 = match db2.hint() {
            Ok(h) => h,
            Err(e) => {
                proof {
                    assert(false);
                }
                return Err(e);
            },
        };
        // first stage: similarity lookup
        let adj1 = adjust_embedding(embedding, params1.m);
        let (s1, c1) = generate_query(&params1, &adj1, a1);
        let resp1 = match db1.respond(&c1) {
            Ok(resp) => resp,
            Err(e) => {
                proof {
                    assert(false);
                }
                return Err(e);
            },
        };
        let y1 = recover(hint1, &s1, &resp1, &params1);
        proof {
            lemma_stage(*db1, adj1@, s1@, a1@, c1@, resp1@, y1@);
        }
        // one retrieval per selected index, best match first
        let idxs = top_k_indices(&y1, k);
        let y1_len = y1.len();
        let mut outs: Vec<Vec<i64>> = Vec::new();
        let mut t: usize = 0;
        let n_idx = idxs.len();
        while t < n_idx
            invariant
                t <= n_idx,
                self.wf(),
                self.both_ready(),
                n_idx == idxs@.len(),
                params2 == self.encoding_db.db.spec_params(),
                a2@ == self.encoding_db.db.a->Some_0@,
                a2.wf(),
                a2.spec_rows() == params2.m,
                a2.spec_cols() == params2.n,
                hint2.wf(),
                hint2@ == self.encoding_db.db.hint->Some_0@,
                hint2.spec_rows() == params2.m,
                hint2.spec_cols() == params2.n,
                self.encoding_db.db.data.spec_rows() == params2.m,
                self.encoding_db.db.data.spec_cols() == params2.m,
                params2.wf(),
                y1_len == y1@.len(),
                is_top_k(y1@, k as nat, idxs@),
                outs@.len() == t,
                forall|u: int|
                    0 <= u < t ==> stage_post(
                        self.encoding_db.db,
                        adjust_spec(
                            unit_spec(y1@.len(), idxs@[u] as int),
                            self.encoding_db.db.spec_params().m as nat,
                        ),
                        (#[trigger] outs@[u])@,
                    ),
            decreases n_idx - t,
        {
            let idx = idxs[t];
            proof {
                assert(idxs@[t as int] < y1@.len());
            }
            let u = unit_vector(y1_len, idx);
            let adj2 = adjust_embedding(&u, params2.m);
            let (s2, c2) = generate_query(&params2, &adj2, a2);
            let resp2 = match self.encoding_db.db.respond(&c2) {
                Ok(resp) => resp,
                Err(e) => {
                    proof {
                        assert(false);
                    }
                    return Err(e);
                },
            };
            let y2 = recover(hint2, &s2, &resp2, &params2);
            proof {
                lemma_stage(self.encoding_db.db, adj2@, s2@, a2@, c2@, resp2@, y2@);
            }
            outs.push(y2);
            t = t + 1;
        }
        proof {
            assert(stage_post(
                self.embedding_db.db,
                adjust_spec(embedding@, self.embedding_db.db.spec_params().m as nat),
                y1@,
            ));
        }
        Ok(outs)
    }
}

/// Connects one stage's executable steps to its round specification: a
/// ciphertext of the adjusted plaintext, answered by the database and
/// recovered against its hint, yields the round's output.
proof fn lemma_stage(
    db: SimplePirDatabase,
    v: Seq<u64>,
    s: Seq<u64>,
    a: Seq<Seq<u64>>,
    c: Seq<u64>,
    resp: Seq<u64>,
    out: Seq<i64>,
)
    requires
        db.wf(),
        db.ready(),
        a == db.a->Some_0@,
        v.len() == db.spec_params().m,
        s.len() == db.spec_params().n,
        exists|eta: Seq<int>|
            is_noise(eta, db.spec_params().m as nat) && #[trigger] is_cipher_of(
                db.spec_params(),
                v,
                a,
                s,
                eta,
                c,
            ),
        resp.len() == db.data@.len(),
        forall|i: int|
            0 <= i < resp.len() ==> resp[i] == crate::matrix::dot_mod(db.data@[i], c),
        out.len() == resp.len(),
        forall|i: int|
            0 <= i < out.len() ==> out[i] == crate::pir::recover_entry(
                db.hint->Some_0@,
                s,
                resp,
                db.spec_params(),
                i,
            ),
    ensures
        stage_post(db, v, out),
{
    let params = db.spec_params();
    let eta = choose|eta: Seq<int>|
        is_noise(eta, params.m as nat) && #[trigger] is_cipher_of(params, v, a, s, eta, c);
    let a_sp = crate::pir::a_matrix_spec(params.seed, params.m as nat, params.n as nat);
    assert(a == a_sp);
    let c_sp = Seq::new(
        params.m as nat,
        |i: int| crate::pir::cipher_entry(params, v, a_sp, s, eta, i) as u64,
    );
    assert(c_sp =~= c);
    let ans_sp = crate::pir::answer_spec(db.data@, c_sp);
    assert(ans_sp =~= resp);
    let h_sp = crate::pir::hint_matrix_spec(db.data@, a_sp);
    assert(h_sp == db.hint->Some_0@);
    let r = round_output(params, db.data@, v, s, eta);
    assert forall|i: int| 0 <= i < out.len() implies out[i] == r[i] by {
        assert(r[i] == crate::pir::recover_entry(h_sp, s, ans_sp, params, i));
    }
    assert(matches_round(db, v, s, eta, out));
}

} // verus!
