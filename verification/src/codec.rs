//! The record codec: packs a list of byte strings into a square matrix of
//! 64-bit words and unpacks it again. Record `i` becomes column `i`; each
//! column holds the record's bytes in 8-byte little-endian chunks, padded
//! with NUL to the longest record and with zero columns and rows to a
//! square.
use crate::error::PirError;
use crate::matrix::{Matrix, Vector};
use crate::ring::q_int;
use vstd::arithmetic::div_mod::lemma_fundamental_div_mod;
use vstd::arithmetic::power2::{lemma2_to64, lemma_pow2_adds, lemma_pow2_pos, pow2};
use vstd::prelude::*;
use vstd::string::StringSliceAdditionalSpecFns;
use vstd::utf8::{
    decode_utf8, encode_scalar, encode_utf8, has_width_1_encoding, has_width_2_encoding,
    has_width_3_encoding, valid_utf8,
};

verus! {

/// The value of a byte sequence read as a little-endian integer.
pub open spec fn le_val(b: Seq<u8>) -> int
    decreases b.len(),
{
    if b.len() == 0 {
        0
    } else {
        b[0] + 256 * le_val(b.drop_first())
    }
}

/// The `n` little-endian bytes of a non-negative value.
pub open spec fn le_bytes(x: int, n: nat) -> Seq<u8>
    decreases n,
{
    if n == 0 {
        Seq::empty()
    } else {
        seq![(x % 256) as u8] + le_bytes(x / 256, (n - 1) as nat)
    }
}

/// A little-endian value is bounded by `2^(8 len)`.
pub proof fn lemma_le_val_bound(b: Seq<u8>)
    ensures
        0 <= le_val(b) < pow2(8 * b.len()),
    decreases b.len(),
{
    lemma2_to64();
    if b.len() == 0 {
    } else {
        let rest = b.drop_first();
        lemma_le_val_bound(rest);
        lemma_pow2_adds(8, 8 * rest.len());
        assert(le_val(b) < 256 * pow2(8 * rest.len())) by (nonlinear_arith)
            requires
                le_val(b) == b[0] + 256 * le_val(rest),
                b[0] < 256,
                le_val(rest) < pow2(8 * rest.len()),
                le_val(rest) >= 0,
                pow2(8 * rest.len()) >= 1,
        ;
    }
}

/// An all-zero byte sequence has value zero.
pub proof fn lemma_le_val_zero(b: Seq<u8>)
    requires
        forall|i: int| 0 <= i < b.len() ==> b[i] == 0,
    ensures
        le_val(b) == 0,
    decreases b.len(),
{
    if b.len() > 0 {
        lemma_le_val_zero(b.drop_first());
    }
}

/// Writing a bounded value as `n` bytes and reading it back is the identity.
pub proof fn lemma_le_bytes_val(x: int, n: nat)
    requires
        0 <= x < pow2(8 * n),
    ensures
        le_bytes(x, n).len() == n,
        le_val(le_bytes(x, n)) == x,
    decreases n,
{
    lemma2_to64();
    if n == 0 {
    } else {
        lemma_pow2_adds(8, 8 * ((n - 1) as nat));
        assert(x / 256 < pow2(8 * ((n - 1) as nat))) by (nonlinear_arith)
            requires
                0 <= x < 256 * pow2(8 * ((n - 1) as nat)),
        ;
        lemma_le_bytes_val(x / 256, (n - 1) as nat);
        let b = le_bytes(x, n);
        assert(b.drop_first() =~= le_bytes(x / 256, (n - 1) as nat));
        assert(x == 256 * (x / 256) + x % 256) by {
            lemma_fundamental_div_mod(x, 256);
        }
    }
}

/// Reading bytes as a value and writing them back is the identity.
pub proof fn lemma_le_val_bytes(b: Seq<u8>)
    ensures
        le_bytes(le_val(b), b.len()) =~= b,
    decreases b.len(),
{
    if b.len() > 0 {
        let rest = b.drop_first();
        let x = le_val(b);
        lemma_le_val_bound(rest);
        assert(x == 256 * le_val(rest) + b[0]);
        assert(x % 256 == b[0] && x / 256 == le_val(rest)) by (nonlinear_arith)
            requires
                x == 256 * le_val(rest) + b[0],
                0 <= b[0] < 256,
                le_val(rest) >= 0,
        ;
        lemma_le_val_bytes(rest);
        assert(le_bytes(x, b.len()).drop_first() =~= le_bytes(x / 256, (b.len() - 1) as nat));
    }
}

/// The eight bytes of chunk `j` of a record: positions `8 j .. 8 j + 8`,
/// reading zero beyond the record's end.
pub open spec fn chunk_seq(b: Seq<u8>, j: int) -> Seq<u8> {
    Seq::new(8, |t: int| if 8 * j + t < b.len() { b[8 * j + t] } else { 0u8 })
}

/// The value of chunk `j` of a record, as an unsigned 64-bit word.
pub open spec fn chunk_val(b: Seq<u8>, j: int) -> int {
    le_val(chunk_seq(b, j))
}

/// Chunk values fit in a word.
pub proof fn lemma_chunk_val_bound(b: Seq<u8>, j: int)
    ensures
        0 <= chunk_val(b, j) < 0x1_0000_0000_0000_0000,
{
    lemma_le_val_bound(chunk_seq(b, j));
    lemma2_to64();
}

/// Chunks that start at or beyond the record's end are zero.
pub proof fn lemma_chunk_val_past_end(b: Seq<u8>, j: int)
    requires
        8 * j >= b.len(),
    ensures
        chunk_val(b, j) == 0,
{
    lemma_le_val_zero(chunk_seq(b, j));
}

/// The number of chunks a record of `len` bytes occupies.
pub open spec fn chunks_count(len: nat) -> nat {
    ((len + 7) / 8) as nat
}

/// A whole record as its sequence of chunk words.
pub open spec fn chunks_of(b: Seq<u8>) -> Seq<u64> {
    Seq::new(chunks_count(b.len()), |j: int| chunk_val(b, j) as u64)
}

/// Reads chunk `j` of a byte string.
fn chunk_of(bytes: &[u8], j: usize) -> (r: u64)
    requires
        8 * j <= usize::MAX,
    ensures
        r == chunk_val(bytes@, j as int),
{
    let blen = bytes.len();
    let base = 8 * j;
    let ghost cs = chunk_seq(bytes@, j as int);
    proof {
        lemma2_to64();
    }
    let mut acc: u64 = 0;
    let mut t: usize = 8;
    while t > 0
        invariant
            t <= 8,
            base == 8 * j,
            blen == bytes@.len(),
            cs == chunk_seq(bytes@, j as int),
            acc == le_val(cs.subrange(t as int, 8)),
            acc < pow2(8 * ((8 - t) as nat)),
        decreases t,
    {
        t = t - 1;
        let byte: u8 = if base < blen && t < blen - base {
            bytes[base + t]
        } else {
            0
        };
        proof {
            lemma2_to64();
            assert(byte == cs[t as int]);
            let tail = cs.subrange(t as int, 8);
            assert(tail.drop_first() =~= cs.subrange(t as int + 1, 8));
            lemma_pow2_adds(8, 8 * ((7 - t) as nat));
            lemma_le_val_bound(tail.drop_first());
            assert(256 * le_val(tail.drop_first()) + byte < pow2(8 * ((8 - t) as nat)))
                by (nonlinear_arith)
                requires
                    le_val(tail.drop_first()) < pow2(8 * ((7 - t) as nat)),
                    le_val(tail.drop_first()) >= 0,
                    byte < 256,
                    pow2(8 * ((8 - t) as nat)) == 256 * pow2(8 * ((7 - t) as nat)),
            ;
            assert(pow2(64) == 0x1_0000_0000_0000_0000 && 8 * ((8 - t) as nat) <= 64);
            if 8 * ((8 - t) as nat) < 64 {
                vstd::arithmetic::power2::lemma_pow2_strictly_increases(
                    8 * ((8 - t) as nat),
                    64,
                );
            }
        }
        acc = 256 * acc + byte as u64;
    }
    proof {
        assert(cs.subrange(0, 8) =~= cs);
    }
    acc
}

/// Splits a byte string into its little-endian chunk words.
pub fn chunk_bytes(bytes: &[u8]) -> (r: Vector)
    ensures
        r@ == chunks_of(bytes@),
{
    let blen = bytes.len();
    let nchunks = blen / 8 + if blen % 8 != 0 {
        1
    } else {
        0
    };
    proof {
        assert(nchunks == chunks_count(bytes@.len()));
    }
    let mut data: Vec<u64> = Vec::new();
    let mut j: usize = 0;
    while j < nchunks
        invariant
            j <= nchunks,
            blen == bytes@.len(),
            nchunks == chunks_count(bytes@.len()),
            8 * nchunks <= blen + 7,
            data@.len() == j,
            forall|k: int| 0 <= k < j ==> data@[k] == chunk_val(bytes@, k) as u64,
        decreases nchunks - j,
    {
        proof {
            lemma_chunk_val_bound(bytes@, j as int);
        }
        data.push(chunk_of(bytes, j));
        j = j + 1;
    }
    let r = Vector { data };
    proof {
        assert(r@ =~= chunks_of(bytes@));
    }
    r
}

/// Splits a text's UTF-8 bytes into little-endian chunk words.
pub fn encode_input(text: &str) -> (r: Vector)
    ensures
        r@ == chunks_of(text.spec_bytes()),
{
    chunk_bytes(text.as_bytes())
}

/// The byte strings of a list of texts.
pub open spec fn records_view(ds: Seq<String>) -> Seq<Seq<u8>> {
    ds.map_values(|s: String| encode_utf8(s@))
}

/// The longest record length, in bytes.
pub open spec fn max_len(rs: Seq<Seq<u8>>) -> nat
    decreases rs.len(),
{
    if rs.len() == 0 {
        0
    } else {
        let rest = max_len(rs.drop_last());
        if rs.last().len() > rest {
            rs.last().len()
        } else {
            rest
        }
    }
}

/// The side of the square encoding of `rs`: large enough for one column per
/// record and one row per chunk of the longest record.
pub open spec fn encode_side(rs: Seq<Seq<u8>>) -> nat {
    if rs.len() > chunks_count(max_len(rs)) {
        rs.len()
    } else {
        chunks_count(max_len(rs))
    }
}

/// The square encoding of a record list: cell `[j][i]` is chunk `j` of
/// record `i`, and zero outside the records' columns.
pub open spec fn encode_spec(rs: Seq<Seq<u8>>) -> Seq<Seq<u64>> {
    let side = encode_side(rs);
    Seq::new(
        side,
        |j: int|
            Seq::new(
                side,
                |i: int|
                    if i < rs.len() {
                        chunk_val(rs[i], j) as u64
                    } else {
                        0u64
                    },
            ),
    )
}

/// Every record's length is at most the maximum.
pub proof fn lemma_max_len_ge(rs: Seq<Seq<u8>>, i: int)
    requires
        0 <= i < rs.len(),
    ensures
        rs[i].len() <= max_len(rs),
    decreases rs.len(),
{
    if i < rs.len() - 1 {
        lemma_max_len_ge(rs.drop_last(), i);
    }
}

/// Packs a list of texts into a square matrix: record `i`'s UTF-8 bytes,
/// NUL-padded to the longest record, fill column `i` in 8-byte chunks;
/// unused cells are zero. Fails exactly on an empty list.
pub fn encode_data(data: &Vec<String>) -> (r: Result<Matrix, PirError>)
    ensures
        match r {
            Ok(m) => {
                &&& data@.len() >= 1
                &&& m.wf()
                &&& m.spec_rows() == encode_side(records_view(data@))
                &&& m.spec_cols() == encode_side(records_view(data@))
                &&& m@ == encode_spec(records_view(data@))
            },
            Err(e) => data@.len() == 0 && e matches PirError::InvalidInput(_),
        },
{
    let ghost rs = records_view(data@);
    let n_rec = data.len();
    if n_rec == 0 {
        return Err(PirError::InvalidInput("Empty data vector".to_owned()));
    }
    // longest record, in bytes
    let mut ml: usize = 0;
    let mut i: usize = 0;
    while i < n_rec
        invariant
            i <= n_rec,
            n_rec == data@.len(),
            rs == records_view(data@),
            ml == max_len(rs.take(i as int)),
        decreases n_rec - i,
    {
        let l = data[i].as_str().as_bytes().len();
        proof {
            assert(rs[i as int] == encode_utf8(data@[i as int]@));
            assert(l == rs[i as int].len());
            assert(rs.take(i as int + 1).drop_last() =~= rs.take(i as int));
            assert(rs.take(i as int + 1).last() == rs[i as int]);
        }
        if l > ml {
            ml = l;
        }
        i = i + 1;
    }
    proof {
        assert(rs.take(n_rec as int) =~= rs);
    }
    let nchunks = ml / 8 + if ml % 8 != 0 {
        1
    } else {
        0
    };
    proof {
        assert(nchunks == chunks_count(max_len(rs)));
    }
    let side = if n_rec > nchunks {
        n_rec
    } else {
        nchunks
    };
    let mut rows: Vec<Vec<u64>> = Vec::new();
    let mut j: usize = 0;
    while j < side
        invariant
            j <= side,
            n_rec == data@.len(),
            n_rec >= 1,
            rs == records_view(data@),
            nchunks == chunks_count(max_len(rs)),
            ml == max_len(rs),
            8 * nchunks <= ml + 7,
            side == encode_side(rs),
            side >= n_rec,
            side >= nchunks,
            rows@.len() == j,
            forall|k: int| 0 <= k < j ==> (#[trigger] rows@[k])@.len() == side,
            forall|k: int, t: int|
                0 <= k < j && 0 <= t < side ==> rows@[k]@[t] == encode_spec(rs)[k][t],
        decreases side - j,
    {
        let mut row: Vec<u64> = Vec::new();
        let mut t: usize = 0;
        while t < side
            invariant
                t <= side,
                j < side,
                n_rec == data@.len(),
                n_rec >= 1,
                rs == records_view(data@),
                nchunks == chunks_count(max_len(rs)),
                ml == max_len(rs),
                8 * nchunks <= ml + 7,
                side >= n_rec,
                side >= nchunks,
                row@.len() == t,
                forall|k: int|
                    0 <= k < t ==> row@[k] == (if k < n_rec {
                        chunk_val(rs[k], j as int) as u64
                    } else {
                        0u64
                    }),
            decreases side - t,
        {
            let cell: u64 = if t < n_rec && j < nchunks {
                proof {
                    assert(8 * (j as int) <= 8 * (nchunks - 1) < 8 * nchunks <= ml + 7);
                    assert(8 * (j as int) + 8 <= 8 * nchunks);
                    assert(8 * nchunks <= ml + 7);
                    lemma_chunk_val_bound(rs[t as int], j as int);
                }
                chunk_of(data[t].as_str().as_bytes(), j)
            } else if t < n_rec {
                proof {
                    lemma_max_len_ge(rs, t as int);
                    assert(8 * (j as int) >= 8 * nchunks >= ml >= rs[t as int].len());
                    lemma_chunk_val_past_end(rs[t as int], j as int);
                }
                0
            } else {
                0
            };
            row.push(cell);
            t = t + 1;
        }
        rows.push(row);
        j = j + 1;
    }
    let m = Matrix { data: rows };
    proof {
        let spec = encode_spec(rs);
        assert forall|k: int| 0 <= k < side implies m@[k] =~= spec[k] by {
            assert(m@[k].len() == side);
        }
        assert(m@ =~~= spec);
        assert(m.wf());
    }
    Ok(m)
}


/// Bytes with every NUL byte removed.
pub open spec fn strip_nul_bytes(b: Seq<u8>) -> Seq<u8> {
    b.filter(|x: u8| x != 0)
}

/// Characters with every NUL character removed.
pub open spec fn strip_nul_chars(c: Seq<char>) -> Seq<char> {
    c.filter(|x: char| x != '\0')
}

/// A character sequence without NUL.
pub open spec fn nul_free(c: Seq<char>) -> bool {
    forall|i: int| 0 <= i < c.len() ==> c[i] != '\0'
}

/// Stripping NUL bytes distributes over concatenation.
proof fn lemma_strip_bytes_add(a: Seq<u8>, b: Seq<u8>)
    ensures
        strip_nul_bytes(a + b) == strip_nul_bytes(a) + strip_nul_bytes(b),
{
    Seq::filter_distributes_over_add(a, b, |x: u8| x != 0);
}

/// Stripping NUL characters distributes over concatenation.
proof fn lemma_strip_chars_add(a: Seq<char>, b: Seq<char>)
    ensures
        strip_nul_chars(a + b) == strip_nul_chars(a) + strip_nul_chars(b),
{
    Seq::filter_distributes_over_add(a, b, |x: char| x != '\0');
}

/// A filter that keeps every element is the identity.
proof fn lemma_filter_keep_all<A>(s: Seq<A>, pred: spec_fn(A) -> bool)
    requires
        forall|i: int| 0 <= i < s.len() ==> pred(s[i]),
    ensures
        s.filter(pred) == s,
    decreases s.len(),
{
    reveal(Seq::filter);
    if s.len() > 0 {
        lemma_filter_keep_all(s.drop_last(), pred);
        assert(s.drop_last().push(s.last()) =~= s);
    }
}

/// The UTF-8 encoding of NUL is the single zero byte, and the encoding of
/// every other character contains no zero byte.
proof fn lemma_encode_scalar_nul(c: char)
    ensures
        c == '\0' ==> encode_scalar(c as u32) =~= seq![0u8],
        c != '\0' ==> forall|i: int|
            0 <= i < encode_scalar(c as u32).len() ==> #[trigger] encode_scalar(c as u32)[i]
                != 0,
{
    broadcast use vstd::utf8::char_is_scalar;
    broadcast use vstd::utf8::char_u32_cast;

    let s = c as u32;
    if c == '\0' {
        assert('\0' as u32 == 0);
        assert(s & 0x7F == 0) by (bit_vector)
            requires
                s == 0,
        ;
    } else {
        assert(s != 0) by {
            if s == 0 {
                assert('\0' as u32 == 0);
                assert((0u32 as char) == c);
                assert((0u32 as char) == '\0');
            }
        }
        if has_width_1_encoding(s) {
            assert((s & 0x7F) as u8 != 0) by (bit_vector)
                requires
                    s != 0,
                    s < 0x80,
            ;
        } else if has_width_2_encoding(s) {
            assert(0xC0u8 | (((s >> 6) & 0x1F) as u8) != 0 && 0x80u8 | ((s & 0x3F) as u8) != 0)
                by (bit_vector);
        } else if has_width_3_encoding(s) {
            assert(0xE0u8 | (((s >> 12) & 0x0F) as u8) != 0 && 0x80u8 | (((s >> 6) & 0x3F) as u8)
                != 0 && 0x80u8 | ((s & 0x3F) as u8) != 0) by (bit_vector);
        } else {
            assert(0xF0u8 | (((s >> 18) & 0x7) as u8) != 0 && 0x80u8 | (((s >> 12) & 0x3F) as u8)
                != 0 && 0x80u8 | (((s >> 6) & 0x3F) as u8) != 0 && 0x80u8 | ((s & 0x3F) as u8)
                != 0) by (bit_vector);
        }
    }
}

/// Stripping NUL bytes from an encoding is encoding the stripped characters:
/// NUL is the only character whose UTF-8 encoding contains a zero byte.
pub proof fn lemma_encode_utf8_strip(cs: Seq<char>)
    ensures
        strip_nul_bytes(encode_utf8(cs)) == encode_utf8(strip_nul_chars(cs)),
    decreases cs.len(),
{
    reveal(Seq::filter);
    if cs.len() == 0 {
        assert(strip_nul_bytes(encode_utf8(cs)) =~= encode_utf8(strip_nul_chars(cs)));
    } else {
        let c0 = cs[0];
        let rest = cs.drop_first();
        let head = encode_scalar(c0 as u32);
        assert(encode_utf8(cs) == head + encode_utf8(rest));
        lemma_strip_bytes_add(head, encode_utf8(rest));
        lemma_encode_utf8_strip(rest);
        lemma_encode_scalar_nul(c0);
        assert(cs =~= seq![c0] + rest);
        lemma_strip_chars_add(seq![c0], rest);
        if c0 == '\0' {
            reveal_with_fuel(Seq::filter, 2);
            assert(head.drop_last() =~= Seq::<u8>::empty());
            assert(seq![c0].drop_last() =~= Seq::<char>::empty());
            assert(strip_nul_bytes(head) =~= Seq::<u8>::empty());
            assert(strip_nul_chars(seq![c0]) =~= Seq::<char>::empty());
            assert(strip_nul_chars(cs) =~= strip_nul_chars(rest));
            assert(strip_nul_bytes(encode_utf8(cs)) =~= encode_utf8(strip_nul_chars(cs)));
        } else {
            reveal_with_fuel(Seq::filter, 2);
            lemma_filter_keep_all(head, |x: u8| x != 0);
            assert(seq![c0].drop_last() =~= Seq::<char>::empty());
            assert(strip_nul_chars(seq![c0]) =~= seq![c0]);
            let tail_chars = strip_nul_chars(rest);
            assert(strip_nul_chars(cs) =~= seq![c0] + tail_chars);
            assert((seq![c0] + tail_chars).drop_first() =~= tail_chars);
            assert(encode_utf8(seq![c0] + tail_chars) == head + encode_utf8(tail_chars));
            assert(strip_nul_bytes(encode_utf8(cs)) =~= encode_utf8(strip_nul_chars(cs)));
        }
    }
}

/// Relies on `core::str::from_utf8` and `str::to_owned`: `from_utf8` returns
/// `Ok` exactly when the bytes are valid UTF-8, and then the string is the
/// one whose UTF-8 encoding is the input.
#[verifier::external_body]
pub(crate) fn utf8_to_string(bytes: &[u8]) -> (r: Option<String>)
    ensures
        r is Some <==> valid_utf8(bytes@),
        match r {
            Some(s) => encode_utf8(s@) == bytes@,
            None => true,
        },
{
    match core::str::from_utf8(bytes) {
        Ok(s) => Some(s.to_owned()),
        Err(_) => None,
    }
}

/// Decodes bytes as UTF-8, then removes every NUL character. `None` exactly
/// when the bytes are not valid UTF-8.
fn decode_stripped(bytes: &Vec<u8>) -> (r: Option<String>)
    ensures
        r is Some <==> valid_utf8(bytes@),
        match r {
            Some(s) => s@ == strip_nul_chars(decode_utf8(bytes@)),
            None => true,
        },
{
    let full = utf8_to_string(bytes.as_slice());
    if full.is_none() {
        return None;
    }
    let n = bytes.len();
    let mut clean: Vec<u8> = Vec::new();
    let mut i: usize = 0;
    while i < n
        invariant
            i <= n,
            n == bytes@.len(),
            clean@ == strip_nul_bytes(bytes@.take(i as int)),
        decreases n - i,
    {
        let b = bytes[i];
        proof {
            reveal_with_fuel(Seq::filter, 2);
            assert(bytes@.take(i as int + 1) =~= bytes@.take(i as int) + seq![bytes@[i as int]]);
            assert(seq![bytes@[i as int]].drop_last() =~= Seq::<u8>::empty());
            lemma_strip_bytes_add(bytes@.take(i as int), seq![bytes@[i as int]]);
            if b != 0 {
                assert(strip_nul_bytes(seq![bytes@[i as int]]) =~= seq![bytes@[i as int]]);
            } else {
                assert(strip_nul_bytes(seq![bytes@[i as int]]) =~= Seq::<u8>::empty());
            }
        }
        if b != 0 {
            clean.push(b);
        }
        i = i + 1;
    }
    proof {
        assert(bytes@.take(n as int) =~= bytes@);
        broadcast use vstd::utf8::decode_utf8_encode_utf8;
        broadcast use vstd::utf8::encode_utf8_valid_utf8;

        let chars = decode_utf8(bytes@);
        assert(encode_utf8(chars) == bytes@);
        lemma_encode_utf8_strip(chars);
        assert(clean@ == encode_utf8(strip_nul_chars(chars)));
        assert(valid_utf8(clean@));
    }
    let out = utf8_to_string(clean.as_slice());
    match out {
        Some(s) => {
            proof {
                broadcast use vstd::utf8::encode_utf8_decode_utf8;

                let chars = decode_utf8(bytes@);
                assert(decode_utf8(encode_utf8(s@)) == s@);
                assert(decode_utf8(encode_utf8(strip_nul_chars(chars))) == strip_nul_chars(
                    chars,
                ));
            }
            Some(s)
        },
        None => {
            proof {
                assert(false);
            }
            None
        },
    }
}

/// The bytes of a recovered vector: each entry's residue as eight
/// little-endian bytes, concatenated over the first `n` entries.
pub open spec fn vector_bytes(v: Seq<i64>, n: int) -> Seq<u8>
    decreases n,
{
    if n <= 0 {
        Seq::empty()
    } else {
        vector_bytes(v, n - 1) + le_bytes((v[n - 1] as int) % q_int(), 8)
    }
}

/// Appends the eight little-endian bytes of a word.
fn push_word_bytes(out: &mut Vec<u8>, w: u64)
    ensures
        final(out)@ == old(out)@ + le_bytes(w as int, 8),
{
    let ghost start = out@;
    let mut x: u64 = w;
    let ghost mut built: Seq<u8> = Seq::empty();
    let mut t: usize = 0;
    proof {
        assert(start + built =~= start);
    }
    while t < 8
        invariant
            t <= 8,
            out@ == start + built,
            built + le_bytes(x as int, (8 - t) as nat) =~= le_bytes(w as int, 8),
        decreases 8 - t,
    {
        let byte: u8 = (x % 256) as u8;
        proof {
            let rest = le_bytes(x as int / 256, (7 - t) as nat);
            assert(le_bytes(x as int, (8 - t) as nat) == seq![byte] + rest);
            assert(built + (seq![byte] + rest) =~= (built + seq![byte]) + rest);
            built = built.push(byte);
            assert(built =~= built.drop_last() + seq![byte]);
        }
        out.push(byte);
        x = x / 256;
        t = t + 1;
    }
    proof {
        assert(built + le_bytes(x as int, 0) =~= built);
        assert(out@ =~= start + le_bytes(w as int, 8));
    }
}

/// Decodes a recovered vector: each entry's low 64 bits contribute eight
/// little-endian bytes; the bytes are read as UTF-8 and NULs are removed.
/// Fails exactly when the bytes are not valid UTF-8.
pub fn decode_input(data: &Vec<i64>) -> (r: Result<String, PirError>)
    ensures
        match r {
            Ok(s) => valid_utf8(vector_bytes(data@, data@.len() as int)) && s@ == strip_nul_chars(
                decode_utf8(vector_bytes(data@, data@.len() as int)),
            ),
            Err(e) => !valid_utf8(vector_bytes(data@, data@.len() as int)) && e matches PirError::StringConversion(_),
        },
{
    let n = data.len();
    let mut bytes: Vec<u8> = Vec::new();
    let mut i: usize = 0;
    while i < n
        invariant
            i <= n,
            n == data@.len(),
            bytes@ == vector_bytes(data@, i as int),
        decreases n - i,
    {
        let w = crate::ring::residue_i64(data[i]);
        push_word_bytes(&mut bytes, w);
        i = i + 1;
    }
    match decode_stripped(&bytes) {
        Some(s) => Ok(s),
        None => Err(PirError::StringConversion("invalid UTF-8 in recovered data".to_owned())),
    }
}

/// The bytes of column `i` of a word matrix: each of the first `nrows`
/// entries contributes eight little-endian bytes.
pub open spec fn column_bytes(m: Seq<Seq<u64>>, i: int, nrows: int) -> Seq<u8>
    decreases nrows,
{
    if nrows <= 0 {
        Seq::empty()
    } else {
        column_bytes(m, i, nrows - 1) + le_bytes(m[nrows - 1][i] as int, 8)
    }
}

/// Every column of the matrix, decoded and stripped of NULs.
pub open spec fn decoded_columns(m: Seq<Seq<u64>>, nrows: int, ncols: int) -> Seq<Seq<char>> {
    Seq::new(ncols as nat, |i: int| strip_nul_chars(decode_utf8(column_bytes(m, i, nrows))))
}

/// The non-empty decoded records, in column order.
pub open spec fn nonempty_records(cs: Seq<Seq<char>>) -> Seq<Seq<char>> {
    cs.filter(|c: Seq<char>| c.len() != 0)
}

/// The records read back from an encoded matrix: decode each column, strip
/// NULs, and drop empty strings.
pub open spec fn decode_spec(m: Seq<Seq<u64>>, nrows: int, ncols: int) -> Seq<Seq<char>> {
    nonempty_records(decoded_columns(m, nrows, ncols))
}

/// Decodes each column of a matrix back to a string and drops the empty
/// ones. Fails exactly when some column's bytes are not valid UTF-8.
pub fn decode_data(data: &Matrix) -> (r: Result<Vec<String>, PirError>)
    requires
        data.wf(),
    ensures
        match r {
            Ok(out) => {
                &&& forall|i: int|
                    0 <= i < data.spec_cols() ==> valid_utf8(
                        column_bytes(data@, i, data.spec_rows() as int),
                    )
                &&& out@.map_values(|s: String| s@) == decode_spec(
                    data@,
                    data.spec_rows() as int,
                    data.spec_cols() as int,
                )
            },
            Err(e) => {
                &&& exists|i: int|
                    0 <= i < data.spec_cols() && !valid_utf8(
                        column_bytes(data@, i, data.spec_rows() as int),
                    )
                &&& e matches PirError::StringConversion(_)
            },
        },
{
    let rows = data.rows();
    let cols = data.cols();
    let mut out: Vec<String> = Vec::new();
    let mut i: usize = 0;
    while i < cols
        invariant
            i <= cols,
            data.wf(),
            rows == data.spec_rows(),
            cols == data.spec_cols(),
            forall|k: int|
                0 <= k < i ==> valid_utf8(column_bytes(data@, k, rows as int)),
            out@.map_values(|s: String| s@) == nonempty_records(
                decoded_columns(data@, rows as int, i as int),
            ),
        decreases cols - i,
    {
        let mut bytes: Vec<u8> = Vec::new();
        let mut j: usize = 0;
        while j < rows
            invariant
                j <= rows,
                i < cols,
                data.wf(),
                rows == data.spec_rows(),
                cols == data.spec_cols(),
                bytes@ == column_bytes(data@, i as int, j as int),
            decreases rows - j,
        {
            push_word_bytes(&mut bytes, data.get(j, i));
            j = j + 1;
        }
        let ghost prev = decoded_columns(data@, rows as int, i as int);
        let ghost col_chars = strip_nul_chars(decode_utf8(column_bytes(data@, i as int, rows as int)));
        match decode_stripped(&bytes) {
            Some(s) => {
                proof {
                    assert(decoded_columns(data@, rows as int, i as int + 1) =~= prev + seq![
                        col_chars,
                    ]);
                    Seq::filter_distributes_over_add(
                        prev,
                        seq![col_chars],
                        |c: Seq<char>| c.len() != 0,
                    );
                    reveal_with_fuel(Seq::filter, 2);
                    assert(seq![col_chars].drop_last() =~= Seq::<Seq<char>>::empty());
                }
                if !s.as_str().is_empty() {
                    proof {
                        assert(nonempty_records(seq![col_chars]) =~= seq![col_chars]);
                        assert(out@.push(s).map_values(|t: String| t@) =~= out@.map_values(
                            |t: String| t@,
                        ).push(s@));
                    }
                    out.push(s);
                } else {
                    proof {
                        assert(nonempty_records(seq![col_chars]) =~= Seq::<Seq<char>>::empty());
                        assert(nonempty_records(prev) + Seq::<Seq<char>>::empty()
                            =~= nonempty_records(prev));
                    }
                }
            },
            None => {
                return Err(
                    PirError::StringConversion("invalid UTF-8 in encoded column".to_owned()),
                );
            },
        }
        i = i + 1;
    }
    Ok(out)
}


/// A filter that drops every element gives the empty sequence.
proof fn lemma_filter_drop_all<A>(s: Seq<A>, pred: spec_fn(A) -> bool)
    requires
        forall|i: int| 0 <= i < s.len() ==> !pred(s[i]),
    ensures
        s.filter(pred) == Seq::<A>::empty(),
    decreases s.len(),
{
    reveal(Seq::filter);
    if s.len() > 0 {
        lemma_filter_drop_all(s.drop_last(), pred);
    }
    assert(s.filter(pred) =~= Seq::<A>::empty());
}

/// UTF-8 encoding distributes over concatenation.
pub proof fn lemma_encode_utf8_concat(a: Seq<char>, b: Seq<char>)
    ensures
        encode_utf8(a + b) == encode_utf8(a) + encode_utf8(b),
    decreases a.len(),
{
    if a.len() == 0 {
        assert(a + b =~= b);
        assert(encode_utf8(a) + encode_utf8(b) =~= encode_utf8(b));
    } else {
        assert((a + b).drop_first() =~= a.drop_first() + b);
        lemma_encode_utf8_concat(a.drop_first(), b);
        assert(encode_scalar((a + b)[0] as u32) + (encode_utf8(a.drop_first()) + encode_utf8(b))
            =~= (encode_scalar(a[0] as u32) + encode_utf8(a.drop_first())) + encode_utf8(b));
    }
}

/// A run of `z` NUL characters.
spec fn nul_chars(z: nat) -> Seq<char> {
    Seq::new(z, |t: int| '\0')
}

/// A run of `z` zero bytes.
spec fn zero_bytes(z: nat) -> Seq<u8> {
    Seq::new(z, |t: int| 0u8)
}

/// NUL characters encode to zero bytes.
proof fn lemma_encode_nul_chars(z: nat)
    ensures
        encode_utf8(nul_chars(z)) == zero_bytes(z),
    decreases z,
{
    if z == 0 {
        assert(encode_utf8(nul_chars(0)) =~= zero_bytes(0));
    } else {
        lemma_encode_nul_chars((z - 1) as nat);
        lemma_encode_scalar_nul('\0');
        assert(nul_chars(z).drop_first() =~= nul_chars((z - 1) as nat));
        assert(encode_scalar('\0' as u32) + zero_bytes((z - 1) as nat) =~= zero_bytes(z));
    }
}

/// A record's bytes, zero-extended to `n` eight-byte chunks.
spec fn padded_bytes(b: Seq<u8>, n: int) -> Seq<u8> {
    Seq::new(
        (8 * n) as nat,
        |t: int|
            if t < b.len() {
                b[t]
            } else {
                0u8
            },
    )
}

/// A column whose cells hold a record's chunks carries the record's bytes,
/// zero-extended.
proof fn lemma_column_is_padded(m: Seq<Seq<u64>>, b: Seq<u8>, i: int, n: int)
    requires
        n >= 0,
        forall|j: int| 0 <= j < n ==> #[trigger] m[j][i] == chunk_val(b, j) as u64,
    ensures
        column_bytes(m, i, n) =~= padded_bytes(b, n),
    decreases n,
{
    if n <= 0 {
    } else {
        lemma_column_is_padded(m, b, i, n - 1);
        let cs = chunk_seq(b, n - 1);
        lemma_chunk_val_bound(b, n - 1);
        lemma_le_val_bytes(cs);
        assert(le_bytes(m[n - 1][i] as int, 8) =~= cs);
        assert(column_bytes(m, i, n) =~= padded_bytes(b, n - 1) + cs);
        assert(padded_bytes(b, n - 1) + cs =~= padded_bytes(b, n));
    }
}

/// The zero-extension of a record's bytes is the encoding of the record's
/// characters followed by NULs.
proof fn lemma_padded_is_encoding(cs: Seq<char>, n: int)
    requires
        8 * n >= encode_utf8(cs).len(),
    ensures
        padded_bytes(encode_utf8(cs), n) == encode_utf8(
            cs + nul_chars((8 * n - encode_utf8(cs).len()) as nat),
        ),
{
    let b = encode_utf8(cs);
    let z = (8 * n - b.len()) as nat;
    lemma_encode_utf8_concat(cs, nul_chars(z));
    lemma_encode_nul_chars(z);
    assert(padded_bytes(b, n) =~= b + zero_bytes(z));
}

/// Round trip: encoding a non-empty list of non-empty, NUL-free records and
/// decoding the resulting square matrix returns exactly the records, in
/// order. Every column of the encoding is valid UTF-8.
pub proof fn lemma_encode_decode_roundtrip(strs: Seq<Seq<char>>)
    requires
        strs.len() >= 1,
        forall|i: int| 0 <= i < strs.len() ==> (#[trigger] strs[i]).len() >= 1,
        forall|i: int| 0 <= i < strs.len() ==> nul_free(#[trigger] strs[i]),
    ensures
        ({
            let rs = strs.map_values(|c: Seq<char>| encode_utf8(c));
            let m = encode_spec(rs);
            let side = encode_side(rs) as int;
            &&& forall|i: int| 0 <= i < side ==> valid_utf8(#[trigger] column_bytes(m, i, side))
            &&& forall|i: int|
                0 <= i < strs.len() ==> strip_nul_chars(
                    decode_utf8(#[trigger] column_bytes(m, i, side)),
                ) == strs[i]
            &&& decode_spec(m, side, side) == strs
        }),
{
    broadcast use vstd::utf8::encode_utf8_valid_utf8;
    broadcast use vstd::utf8::encode_utf8_decode_utf8;

    let rs = strs.map_values(|c: Seq<char>| encode_utf8(c));
    let m = encode_spec(rs);
    let side = encode_side(rs) as int;
    let nrec = strs.len() as int;
    assert(rs.len() == nrec);
    // each column of the matrix is a record's bytes (or nothing), zero-extended
    assert forall|i: int| 0 <= i < side implies valid_utf8(#[trigger] column_bytes(m, i, side))
        && (i < nrec ==> strip_nul_chars(decode_utf8(column_bytes(m, i, side))) == strs[i]) && (
    i >= nrec ==> strip_nul_chars(decode_utf8(column_bytes(m, i, side))).len() == 0) by {
        if i < nrec {
            let cs = strs[i];
            let b = rs[i];
            assert(b == encode_utf8(cs));
            // the column holds the record's chunks
            assert forall|j: int| 0 <= j < side implies #[trigger] m[j][i] == chunk_val(b, j)
                as u64 by {
                assert(m[j][i] == chunk_val(rs[i], j) as u64);
            }
            lemma_column_is_padded(m, b, i, side);
            // the padding stays within the square: 8 * side >= the record
            lemma_max_len_ge(rs, i);
            assert(8 * chunks_count(max_len(rs)) >= max_len(rs));
            assert(8 * side >= b.len());
            let z = (8 * side - b.len()) as nat;
            lemma_padded_is_encoding(cs, side);
            let whole = cs + nul_chars(z);
            assert(column_bytes(m, i, side) == encode_utf8(whole));
            assert(valid_utf8(column_bytes(m, i, side)));
            assert(decode_utf8(encode_utf8(whole)) == whole);
            lemma_strip_chars_add(cs, nul_chars(z));
            lemma_filter_keep_all(cs, |x: char| x != '\0');
            lemma_filter_drop_all(nul_chars(z), |x: char| x != '\0');
            assert(strip_nul_chars(whole) =~= cs);
        } else {
            // an unused column is all zero: it decodes to NULs alone
            let b = Seq::<u8>::empty();
            assert forall|j: int| 0 <= j < side implies #[trigger] m[j][i] == chunk_val(b, j)
                as u64 by {
                lemma_chunk_val_past_end(b, j);
                assert(m[j][i] == 0u64);
            }
            lemma_column_is_padded(m, b, i, side);
            lemma_padded_is_encoding(Seq::<char>::empty(), side);
            assert(encode_utf8(Seq::<char>::empty()) =~= Seq::<u8>::empty());
            let whole = Seq::<char>::empty() + nul_chars((8 * side) as nat);
            assert(column_bytes(m, i, side) == encode_utf8(whole));
            assert(decode_utf8(encode_utf8(whole)) == whole);
            assert(whole =~= nul_chars((8 * side) as nat));
            lemma_filter_drop_all(nul_chars((8 * side) as nat), |x: char| x != '\0');
        }
    }
    // the decoded columns are the records followed by empties
    let dc = decoded_columns(m, side, side);
    let empties = Seq::new((side - nrec) as nat, |t: int| Seq::<char>::empty());
    assert(dc =~= strs + empties) by {
        assert forall|i: int| 0 <= i < side implies dc[i] == (strs + empties)[i] by {
            if i >= nrec {
                assert(dc[i].len() == 0);
                assert((strs + empties)[i] =~= Seq::<char>::empty());
                assert(dc[i] =~= Seq::<char>::empty());
            }
        }
    }
    Seq::filter_distributes_over_add(strs, empties, |c: Seq<char>| c.len() != 0);
    lemma_filter_keep_all(strs, |c: Seq<char>| c.len() != 0);
    lemma_filter_drop_all(empties, |c: Seq<char>| c.len() != 0);
    assert(nonempty_records(dc) =~= strs);
}

} // verus!
