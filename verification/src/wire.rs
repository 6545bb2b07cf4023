//! The wire format of the HTTP service: parameters, matrices and vectors
//! travel as JSON documents whose numbers are decimal strings. This module
//! holds the wire structures and the exact conversions between them and the
//! library's types; the HTTP framing itself lives outside the library.
use crate::error::PirError;
use crate::matrix::{Matrix, Vector};
use crate::params::{gen_params, SimplePIRParams};
use crate::ring::{q_int, Q128};
use vstd::arithmetic::power2::{lemma2_to64, lemma_pow2_strictly_increases, pow2};
use vstd::prelude::*;
use vstd::string::StringSliceAdditionalSpecFns;
use vstd::utf8::{decode_utf8, encode_scalar, encode_utf8, valid_utf8};

verus! {

/// A query ciphertext on the wire: one decimal string per entry.
pub struct QueryRequest {
    pub query: Vec<String>,
}

/// The server's answer on the wire: one decimal string per entry.
pub struct QueryResponse {
    pub response: Vec<String>,
}

/// Parameters on the wire; the two moduli are decimal strings since `q`
/// does not fit in 64 bits.
pub struct ParamsData {
    pub m: usize,
    pub n: usize,
    pub q: String,
    pub p: String,
}

/// A matrix on the wire: entries in row-major order, as decimal strings.
pub struct MatrixResponse {
    pub rows: usize,
    pub cols: usize,
    pub data: Vec<String>,
}

/// The decimal digits of `n`, most significant first.
pub open spec fn dec_digits(n: nat) -> Seq<char>
    decreases n,
{
    if n < 10 {
        seq![digit_char((n % 10) as nat)]
    } else {
        dec_digits(n / 10) + seq![digit_char((n % 10) as nat)]
    }
}

/// The character of one decimal digit.
pub open spec fn digit_char(d: nat) -> char
    recommends
        d < 10,
{
    ((d + 48) as u8) as char
}

/// The decimal digit bytes of `n`, most significant first.
pub open spec fn dec_bytes(n: nat) -> Seq<u8>
    decreases n,
{
    if n < 10 {
        seq![((n % 10) + 48) as u8]
    } else {
        dec_bytes(n / 10) + seq![((n % 10) + 48) as u8]
    }
}

/// A decimal digit character.
pub open spec fn is_digit(c: char) -> bool {
    48 <= (c as u32) <= 57
}

/// Every character is a decimal digit.
pub open spec fn all_digits(cs: Seq<char>) -> bool {
    forall|k: int| 0 <= k < cs.len() ==> is_digit(#[trigger] cs[k])
}

/// The numeric value of a digit character sequence.
pub open spec fn dec_val(cs: Seq<char>) -> nat
    decreases cs.len(),
{
    if cs.len() == 0 {
        0
    } else {
        dec_val(cs.drop_last()) * 10 + (((cs.last() as u32) - 48) as nat)
    }
}

/// A decimal digit byte.
pub open spec fn is_digit_byte(b: u8) -> bool {
    48 <= b <= 57
}

/// Every byte is a decimal digit.
pub open spec fn all_digit_bytes(bs: Seq<u8>) -> bool {
    forall|k: int| 0 <= k < bs.len() ==> is_digit_byte(#[trigger] bs[k])
}

/// The numeric value of a digit byte sequence.
pub open spec fn dec_val_bytes(bs: Seq<u8>) -> nat
    decreases bs.len(),
{
    if bs.len() == 0 {
        0
    } else {
        dec_val_bytes(bs.drop_last()) * 10 + ((bs.last() - 48) as nat)
    }
}

/// The digit string of `n` encodes to its digit bytes, and both are plain
/// digits of equal length.
proof fn lemma_dec_bytes_encode(n: nat)
    ensures
        encode_utf8(dec_digits(n)) == dec_bytes(n),
        all_digits(dec_digits(n)),
        all_digit_bytes(dec_bytes(n)),
        dec_digits(n).len() == dec_bytes(n).len() >= 1,
    decreases n,
{
    let c = digit_char((n % 10) as nat);
    let b = (((n % 10) + 48) as u8);
    assert(c as u32 == b as u32);
    assert(encode_scalar(c as u32) =~= seq![b]) by {
        let sc = c as u32;
        assert(sc < 0x80 && (sc & 0x7F) as u8 == sc as u8) by (bit_vector)
            requires
                48 <= sc <= 57,
        ;
    }
    assert(encode_utf8(seq![c]) =~= seq![b]) by {
        assert(seq![c].drop_first() =~= Seq::<char>::empty());
        assert(encode_utf8(Seq::<char>::empty()) =~= Seq::<u8>::empty());
        assert(encode_utf8(seq![c]) == encode_scalar(seq![c][0] as u32) + encode_utf8(
            seq![c].drop_first(),
        ));
    }
    if n < 10 {
        assert(dec_digits(n) =~= seq![c]);
        assert(dec_bytes(n) =~= seq![b]);
    } else {
        lemma_dec_bytes_encode(n / 10);
        crate::codec::lemma_encode_utf8_concat(dec_digits(n / 10), seq![c]);
        assert(encode_utf8(dec_digits(n)) =~= dec_bytes(n));
    }
}

/// A digit string encodes byte-for-byte: each character becomes its own
/// code as one byte.
proof fn lemma_digit_chars_encode(cs: Seq<char>)
    requires
        all_digits(cs),
    ensures
        encode_utf8(cs).len() == cs.len(),
        forall|k: int|
            0 <= k < cs.len() ==> #[trigger] encode_utf8(cs)[k] == ((cs[k] as u32) as u8),
    decreases cs.len(),
{
    if cs.len() > 0 {
        let sc = cs[0] as u32;
        assert(is_digit(cs[0]));
        assert(encode_scalar(sc) =~= seq![(sc as u8)]) by {
            assert(sc < 0x80 && (sc & 0x7F) as u8 == sc as u8) by (bit_vector)
                requires
                    48 <= sc <= 57,
            ;
        }
        assert(forall|k: int| 0 <= k < cs.drop_first().len() ==> is_digit(
            #[trigger] cs.drop_first()[k],
        ));
        lemma_digit_chars_encode(cs.drop_first());
        assert(encode_utf8(cs) == seq![(sc as u8)] + encode_utf8(cs.drop_first()));
        assert forall|k: int| 0 <= k < cs.len() implies #[trigger] encode_utf8(cs)[k] == ((
        cs[k] as u32) as u8) by {
            if k >= 1 {
                assert(encode_utf8(cs)[k] == encode_utf8(cs.drop_first())[k - 1]);
                assert(cs.drop_first()[k - 1] == cs[k]);
            }
        }
    }
}

/// Digit strings read back to their value, through their encodings.
proof fn lemma_digit_chars_bytes(cs: Seq<char>)
    requires
        all_digits(cs),
    ensures
        encode_utf8(cs).len() == cs.len(),
        all_digit_bytes(encode_utf8(cs)),
        dec_val_bytes(encode_utf8(cs)) == dec_val(cs),
    decreases cs.len(),
{
    lemma_digit_chars_encode(cs);
    lemma_digit_pointwise(cs, encode_utf8(cs));
}

/// Pointwise-corresponding digit sequences have the same value.
proof fn lemma_digit_pointwise(cs: Seq<char>, bs: Seq<u8>)
    requires
        all_digits(cs),
        bs.len() == cs.len(),
        forall|k: int| 0 <= k < cs.len() ==> #[trigger] bs[k] == ((cs[k] as u32) as u8),
    ensures
        all_digit_bytes(bs),
        dec_val_bytes(bs) == dec_val(cs),
    decreases cs.len(),
{
    assert forall|k: int| 0 <= k < bs.len() implies is_digit_byte(#[trigger] bs[k]) by {
        assert(is_digit(cs[k]));
    }
    if cs.len() > 0 {
        assert(forall|k: int|
            0 <= k < cs.drop_last().len() ==> #[trigger] bs.drop_last()[k] == ((
            cs.drop_last()[k] as u32) as u8));
        lemma_digit_pointwise(cs.drop_last(), bs.drop_last());
        assert(is_digit(cs.last()));
        assert(bs.last() == ((cs.last() as u32) as u8));
        assert(dec_val_bytes(bs) == dec_val_bytes(bs.drop_last()) * 10 + ((bs.last()
            - 48) as nat));
        assert(dec_val(cs) == dec_val(cs.drop_last()) * 10 + (((cs.last() as u32)
            - 48) as nat));
    }
}

/// Bytes that are all digits can only encode digit characters.
proof fn lemma_digit_bytes_chars(cs: Seq<char>)
    requires
        all_digit_bytes(encode_utf8(cs)),
    ensures
        all_digits(cs),
        encode_utf8(cs).len() == cs.len(),
        dec_val_bytes(encode_utf8(cs)) == dec_val(cs),
    decreases cs.len(),
{
    broadcast use vstd::utf8::char_is_scalar;

    if cs.len() == 0 {
    } else {
        let c0 = cs[0];
        let sc = c0 as u32;
        let head = encode_scalar(sc);
        let rest = encode_utf8(cs.drop_first());
        assert(encode_utf8(cs) == head + rest);
        assert(head.len() >= 1);
        assert(is_digit_byte(head[0])) by {
            assert((head + rest)[0] == head[0]);
        }
        // a digit leading byte means a one-byte encoding of a digit
        if !vstd::utf8::has_width_1_encoding(sc) {
            if vstd::utf8::has_width_2_encoding(sc) {
                assert(0xC0u8 | (((sc >> 6) & 0x1F) as u8) >= 0xC0) by (bit_vector);
            } else if vstd::utf8::has_width_3_encoding(sc) {
                assert(0xE0u8 | (((sc >> 12) & 0x0F) as u8) >= 0xE0) by (bit_vector);
            } else {
                assert(0xF0u8 | (((sc >> 18) & 0x7) as u8) >= 0xF0) by (bit_vector);
            }
            assert(false);
        }
        assert(head =~= seq![(sc & 0x7F) as u8]);
        assert((sc & 0x7F) as u8 == sc as u8 && sc < 0x80) by (bit_vector)
            requires
                sc < 0x80,
        ;
        assert(is_digit(c0)) by {
            assert(48 <= (sc & 0x7F) as u8 <= 57);
            assert(sc < 0x80);
            assert((sc & 0x7F) as u8 == sc as u8 && sc as u8 == sc) by (bit_vector)
                requires
                    sc < 0x80,
            ;
        }
        assert forall|k: int| 0 <= k < rest.len() implies is_digit_byte(#[trigger] rest[k]) by {
            assert(rest[k] == (head + rest)[k + 1]);
        }
        lemma_digit_bytes_chars(cs.drop_first());
        assert forall|k: int| 0 <= k < cs.len() implies is_digit(#[trigger] cs[k]) by {
            if k >= 1 {
                assert(cs.drop_first()[k - 1] == cs[k]);
                assert(is_digit(cs.drop_first()[k - 1]));
            }
        }
        // values agree: both sequences correspond pointwise
        lemma_digit_chars_bytes(cs);
    }
}

/// Appends the decimal digit bytes of `x`, most significant first.
fn push_decimal(out: &mut Vec<u8>, x: u128)
    ensures
        final(out)@ == old(out)@ + dec_bytes(x as nat),
    decreases x,
{
    if x >= 10 {
        push_decimal(out, x / 10);
    }
    let b: u8 = (x % 10) as u8 + 48;
    proof {
        if x < 10 {
            assert(old(out)@ + dec_bytes(x as nat) =~= old(out)@.push(b));
        } else {
            assert(old(out)@ + dec_bytes((x / 10) as nat) + seq![b] =~= old(out)@ + dec_bytes(
                x as nat,
            ));
        }
    }
    out.push(b);
}

/// Formats a value as its decimal digits.
pub fn u128_to_decimal(x: u128) -> (r: String)
    ensures
        r@ == dec_digits(x as nat),
{
    let mut out: Vec<u8> = Vec::new();
    push_decimal(&mut out, x);
    proof {
        broadcast use vstd::utf8::encode_utf8_valid_utf8;
        broadcast use vstd::utf8::encode_utf8_decode_utf8;

        lemma_dec_bytes_encode(x as nat);
        assert(Seq::<u8>::empty() + dec_bytes(x as nat) =~= dec_bytes(x as nat));
        assert(out@ == encode_utf8(dec_digits(x as nat)));
        assert(valid_utf8(out@));
    }
    match crate::codec::utf8_to_string(out.as_slice()) {
        Some(s) => {
            proof {
                broadcast use vstd::utf8::encode_utf8_decode_utf8;

                assert(decode_utf8(encode_utf8(s@)) == s@) by {
                    vstd::utf8::encode_utf8_decode_utf8(s@);
                }
                vstd::utf8::encode_utf8_decode_utf8(dec_digits(x as nat));
            }
            s
        },
        None => {
            proof {
                assert(false);
            }
            String::new()
        },
    }
}

/// Formats a word as its decimal digits.
pub fn u64_to_decimal(x: u64) -> (r: String)
    ensures
        r@ == dec_digits(x as nat),
{
    u128_to_decimal(x as u128)
}

/// Parses a decimal string into a value below the given bound. Succeeds
/// exactly on non-empty, all-digit strings whose value is below `bound`.
pub fn parse_decimal(s: &str, bound: u128) -> (r: Option<u128>)
    ensures
        match r {
            Some(x) => {
                &&& s@.len() >= 1
                &&& all_digits(s@)
                &&& dec_val(s@) < bound
                &&& x == dec_val(s@)
            },
            None => !(s@.len() >= 1 && all_digits(s@) && dec_val(s@) < bound),
        },
{
    let bytes = s.as_bytes();
    let n = bytes.len();
    if n == 0 {
        proof {
            assert(s@.len() == 0) by {
                if s@.len() > 0 {
                    assert(encode_scalar(s@[0] as u32).len() >= 1);
                    assert(encode_utf8(s@) == encode_scalar(s@[0] as u32) + encode_utf8(
                        s@.drop_first(),
                    ));
                }
            }
        }
        return None;
    }
    let mut acc: u128 = 0;
    let mut i: usize = 0;
    while i < n
        invariant
            i <= n,
            n == bytes@.len(),
            bytes@ == s.spec_bytes(),
            all_digit_bytes(bytes@.take(i as int)),
            acc == dec_val_bytes(bytes@.take(i as int)),
        decreases n - i,
    {
        let b = bytes[i];
        if b < 48 || b > 57 {
            proof {
                lemma_not_all_digit_chars(s@, i as int);
            }
            return None;
        }
        proof {
            assert(bytes@.take(i as int + 1).drop_last() =~= bytes@.take(i as int));
        }
        let guard: u128 = (u128::MAX - (b - 48) as u128) / 10;
        proof {
            let xg = (u128::MAX - (b - 48) as u128) as int;
            vstd::arithmetic::div_mod::lemma_fundamental_div_mod(xg, 10);
            assert(acc > xg / 10 ==> acc * 10 > xg) by (nonlinear_arith)
                requires
                    xg == 10 * (xg / 10) + xg % 10,
                    0 <= xg % 10 < 10,
            ;
            assert(acc <= xg / 10 ==> acc * 10 <= xg) by (nonlinear_arith)
                requires
                    xg == 10 * (xg / 10) + xg % 10,
                    0 <= xg % 10 < 10,
            ;
        }
        if acc > guard {
            proof {
                lemma_overflow_case(s@, i as int, bound);
            }
            return None;
        }
        acc = acc * 10 + (b - 48) as u128;
        i = i + 1;
    }
    proof {
        assert(bytes@.take(n as int) =~= bytes@);
        lemma_digit_bytes_chars(s@);
    }
    if acc < bound {
        Some(acc)
    } else {
        proof {
            lemma_digit_bytes_chars(s@);
        }
        None
    }
}

/// When byte `i` of a string's encoding is not a digit, the string is not
/// all digits.
proof fn lemma_not_all_digit_chars(cs: Seq<char>, i: int)
    requires
        0 <= i < encode_utf8(cs).len(),
        !is_digit_byte(encode_utf8(cs)[i]),
    ensures
        !all_digits(cs),
{
    if all_digits(cs) {
        lemma_digit_chars_encode(cs);
        assert(encode_utf8(cs)[i] == ((cs[i] as u32) as u8));
        assert(is_digit(cs[i]));
        assert(false);
    }
}

/// A value that already exceeds the overflow guard keeps the whole string's
/// value out of any 128-bit bound.
proof fn lemma_overflow_case(cs: Seq<char>, i: int, bound: u128)
    requires
        0 <= i < encode_utf8(cs).len(),
        all_digit_bytes(encode_utf8(cs).take(i)),
        is_digit_byte(encode_utf8(cs)[i]),
        dec_val_bytes(encode_utf8(cs).take(i)) * 10 + (encode_utf8(cs)[i] - 48) as nat
            > u128::MAX,
    ensures
        !(cs.len() >= 1 && all_digits(cs) && dec_val(cs) < bound),
{
    if cs.len() >= 1 && all_digits(cs) && dec_val(cs) < bound {
        lemma_digit_chars_bytes(cs);
        let bs = encode_utf8(cs);
        assert(bs.take(i + 1).drop_last() =~= bs.take(i));
        assert(dec_val_bytes(bs.take(i + 1)) > u128::MAX);
        lemma_dec_val_bytes_monotone(bs, i + 1);
        assert(dec_val_bytes(bs) > u128::MAX);
        assert(dec_val(cs) > u128::MAX);
        assert(bound <= u128::MAX);
        assert(false);
    }
}

/// A longer digit prefix never has a smaller value.
proof fn lemma_dec_val_bytes_monotone(bs: Seq<u8>, i: int)
    requires
        0 <= i <= bs.len(),
        all_digit_bytes(bs),
    ensures
        dec_val_bytes(bs.take(i)) <= dec_val_bytes(bs),
    decreases bs.len() - i,
{
    if i < bs.len() {
        lemma_dec_val_bytes_monotone(bs, i + 1);
        assert(bs.take(i + 1).drop_last() =~= bs.take(i));
        assert(dec_val_bytes(bs.take(i + 1)) == dec_val_bytes(bs.take(i)) * 10 + (bs[i]
            - 48) as nat);
    } else {
        assert(bs.take(i) =~= bs);
    }
}


/// Reading back the digits of `n` yields `n`: the decimal form is a
/// faithful round trip.
pub proof fn lemma_dec_digits_value(n: nat)
    ensures
        dec_digits(n).len() >= 1,
        all_digits(dec_digits(n)),
        dec_val(dec_digits(n)) == n,
    decreases n,
{
    lemma_dec_bytes_encode(n);
    let c = digit_char((n % 10) as nat);
    assert(c as u32 == ((n % 10) + 48) as u8 as u32);
    assert(c as u32 == (n % 10) + 48);
    if n < 10 {
        assert(dec_digits(n) =~= seq![c]);
        assert(seq![c].drop_last() =~= Seq::<char>::empty());
        assert(dec_val(Seq::<char>::empty()) == 0);
        assert(dec_val(seq![c]) == (((c as u32) - 48) as nat));
    } else {
        lemma_dec_digits_value(n / 10);
        assert(dec_digits(n).drop_last() =~= dec_digits(n / 10));
        assert(dec_digits(n).last() == c);
        assert(dec_val(dec_digits(n)) == dec_val(dec_digits(n / 10)) * 10 + (((c as u32)
            - 48) as nat));
        vstd::arithmetic::div_mod::lemma_fundamental_div_mod(n as int, 10);
    }
}

/// Parses one 64-bit word from its decimal form.
pub fn parse_u64(s: &str) -> (r: Option<u64>)
    ensures
        match r {
            Some(x) => {
                &&& s@.len() >= 1
                &&& all_digits(s@)
                &&& dec_val(s@) < 0x1_0000_0000_0000_0000
                &&& x == dec_val(s@)
            },
            None => !(s@.len() >= 1 && all_digits(s@) && dec_val(s@)
                < 0x1_0000_0000_0000_0000),
        },
{
    match parse_decimal(s, 0x1_0000_0000_0000_0000u128) {
        Some(x) => Some(x as u64),
        None => None,
    }
}

/// Serialises a vector as decimal strings, entry by entry.
pub fn serialize_vector(vec: &Vector) -> (r: Vec<String>)
    ensures
        r@.len() == vec@.len(),
        forall|i: int| 0 <= i < r@.len() ==> (#[trigger] r@[i])@ == dec_digits(vec@[i] as nat),
{
    let n = vec.len();
    let mut out: Vec<String> = Vec::new();
    let mut i: usize = 0;
    while i < n
        invariant
            i <= n,
            n == vec@.len(),
            out@.len() == i,
            forall|k: int|
                0 <= k < i ==> (#[trigger] out@[k])@ == dec_digits(vec@[k] as nat),
        decreases n - i,
    {
        out.push(u64_to_decimal(vec.get(i)));
        i = i + 1;
    }
    out
}

/// Parses a vector from decimal strings. Fails exactly when some entry is
/// not the decimal form of a 64-bit word.
pub fn deserialize_vector(data: &Vec<String>) -> (r: Result<Vector, PirError>)
    ensures
        match r {
            Ok(v) => {
                &&& v@.len() == data@.len()
                &&& forall|i: int|
                    0 <= i < data@.len() ==> {
                        &&& all_digits((#[trigger] data@[i])@)
                        &&& data@[i]@.len() >= 1
                        &&& dec_val(data@[i]@) < 0x1_0000_0000_0000_0000
                        &&& v@[i] == dec_val(data@[i]@)
                    }
            },
            Err(e) => {
                &&& exists|i: int|
                    0 <= i < data@.len() && !((#[trigger] data@[i])@.len() >= 1 && all_digits(
                        data@[i]@,
                    ) && dec_val(data@[i]@) < 0x1_0000_0000_0000_0000)
                &&& e matches PirError::Serialization(_)
            },
        },
{
    let n = data.len();
    let mut out: Vec<u64> = Vec::new();
    let mut i: usize = 0;
    while i < n
        invariant
            i <= n,
            n == data@.len(),
            out@.len() == i,
            forall|k: int|
                0 <= k < i ==> {
                    &&& all_digits((#[trigger] data@[k])@)
                    &&& data@[k]@.len() >= 1
                    &&& dec_val(data@[k]@) < 0x1_0000_0000_0000_0000
                    &&& out@[k] == dec_val(data@[k]@)
                },
        decreases n - i,
    {
        match parse_u64(data[i].as_str()) {
            Some(x) => {
                out.push(x);
            },
            None => {
                return Err(
                    PirError::Serialization("entry is not a 64-bit decimal".to_owned()),
                );
            },
        }
        i = i + 1;
    }
    Ok(Vector::new(out))
}

/// Serialises a matrix as decimal strings, row-major.
pub fn serialize_matrix(matrix: &Matrix) -> (r: MatrixResponse)
    requires
        matrix.wf(),
    ensures
        r.rows == matrix.spec_rows(),
        r.cols == matrix.spec_cols(),
        r.data@.len() == matrix.spec_rows() * matrix.spec_cols(),
        forall|i: int, j: int|
            0 <= i < matrix.spec_rows() && 0 <= j < matrix.spec_cols()
                ==> (#[trigger] r.data@[i * matrix.spec_cols() + j])@ == dec_digits(
                matrix@[i][j] as nat,
            ),
{
    let rows = matrix.rows();
    let cols = matrix.cols();
    let mut data: Vec<String> = Vec::new();
    let mut i: usize = 0;
    while i < rows
        invariant
            i <= rows,
            matrix.wf(),
            rows == matrix.spec_rows(),
            cols == matrix.spec_cols(),
            data@.len() == i * cols,
            forall|k: int, j: int|
                0 <= k < i && 0 <= j < cols ==> (#[trigger] data@[k * cols + j])@ == dec_digits(
                    matrix@[k][j] as nat,
                ),
        decreases rows - i,
    {
        let mut j: usize = 0;
        while j < cols
            invariant
                j <= cols,
                i < rows,
                matrix.wf(),
                rows == matrix.spec_rows(),
                cols == matrix.spec_cols(),
                data@.len() == i * cols + j,
                forall|k: int, t: int|
                    0 <= k < i && 0 <= t < cols ==> (#[trigger] data@[k * cols + t])@
                        == dec_digits(matrix@[k][t] as nat),
                forall|t: int|
                    0 <= t < j ==> (#[trigger] data@[i * cols + t])@ == dec_digits(
                        matrix@[i as int][t] as nat,
                    ),
            decreases cols - j,
        {
            let ghost d0 = data@;
            data.push(u64_to_decimal(matrix.get(i, j)));
            proof {
                assert forall|k: int, t: int|
                    0 <= k < i && 0 <= t < cols implies (#[trigger] data@[k * cols + t])@
                    == dec_digits(matrix@[k][t] as nat) by {
                    assert(k * cols + t < i * cols) by (nonlinear_arith)
                        requires
                            0 <= k < i,
                            0 <= t < cols,
                    ;
                    assert(data@[k * cols + t] == d0[k * cols + t]);
                }
            }
            j = j + 1;
        }
        proof {
            assert(i * cols + cols == (i + 1) * cols) by (nonlinear_arith);
            assert forall|k: int, t: int|
                0 <= k < i + 1 && 0 <= t < cols implies (#[trigger] data@[k * cols + t])@
                == dec_digits(matrix@[k][t] as nat) by {
                if k == i {
                    assert(data@[i * cols + t]@ == dec_digits(matrix@[i as int][t] as nat));
                }
            }
        }
        i = i + 1;
    }
    MatrixResponse { rows, cols, data }
}

/// Parses a matrix from its wire form. Fails exactly when the shape is
/// degenerate, the entry count does not match it, or an entry is not the
/// decimal form of a 64-bit word.
pub fn deserialize_matrix(response: &MatrixResponse) -> (r: Result<Matrix, PirError>)
    ensures
        match r {
            Ok(m) => {
                &&& response.rows >= 1
                &&& response.cols >= 1
                &&& response.data@.len() == response.rows * response.cols
                &&& m.wf()
                &&& m.spec_rows() == response.rows
                &&& m.spec_cols() == response.cols
                &&& forall|i: int, j: int|
                    0 <= i < response.rows && 0 <= j < response.cols ==> {
                        &&& all_digits(
                            (#[trigger] response.data@[i * response.cols + j])@,
                        )
                        &&& dec_val(response.data@[i * response.cols + j]@)
                            < 0x1_0000_0000_0000_0000
                        &&& m@[i][j] == dec_val(response.data@[i * response.cols + j]@)
                    }
            },
            Err(e) => {
                &&& e matches PirError::Serialization(_)
                &&& !({
                    &&& response.rows >= 1
                    &&& response.cols >= 1
                    &&& response.data@.len() == response.rows * response.cols
                    &&& forall|k: int|
                        0 <= k < response.data@.len() ==> ((#[trigger] response.data@[k])@.len()
                            >= 1 && all_digits(response.data@[k]@) && dec_val(response.data@[k]@)
                            < 0x1_0000_0000_0000_0000)
                })
            },
        },
{
    let rows = response.rows;
    let cols = response.cols;
    if rows == 0 || cols == 0 {
        return Err(PirError::Serialization("matrix shape is degenerate".to_owned()));
    }
    let len = response.data.len();
    let expected = match rows.checked_mul(cols) {
        Some(x) => x,
        None => {
            proof {
                assert(response.data@.len() <= usize::MAX);
            }
            return Err(PirError::Serialization("matrix shape overflows".to_owned()));
        },
    };
    if len != expected {
        return Err(PirError::Serialization("entry count does not match shape".to_owned()));
    }
    let mut data: Vec<Vec<u64>> = Vec::new();
    let mut i: usize = 0;
    while i < rows
        invariant
            i <= rows,
            rows == response.rows,
            cols == response.cols,
            rows >= 1,
            cols >= 1,
            expected == rows * cols,
            response.data@.len() == expected,
            data@.len() == i,
            forall|k: int| 0 <= k < i ==> (#[trigger] data@[k])@.len() == cols,
            forall|k: int, j: int|
                0 <= k < i && 0 <= j < cols ==> {
                    &&& all_digits((#[trigger] response.data@[k * cols + j])@)
                    &&& dec_val(response.data@[k * cols + j]@) < 0x1_0000_0000_0000_0000
                    &&& data@[k]@[j] == dec_val(response.data@[k * cols + j]@)
                },
        decreases rows - i,
    {
        let mut row: Vec<u64> = Vec::new();
        let mut j: usize = 0;
        while j < cols
            invariant
                j <= cols,
                i < rows,
                rows == response.rows,
                cols == response.cols,
                expected == rows * cols,
                response.data@.len() == expected,
                row@.len() == j,
                forall|t: int|
                    0 <= t < j ==> {
                        &&& all_digits((#[trigger] response.data@[i * cols + t])@)
                        &&& dec_val(response.data@[i * cols + t]@) < 0x1_0000_0000_0000_0000
                        &&& row@[t] == dec_val(response.data@[i * cols + t]@)
                    },
            decreases cols - j,
        {
            proof {
                assert(i * cols + j < rows * cols) by (nonlinear_arith)
                    requires
                        i < rows,
                        j < cols,
                ;
            }
            let idx: usize = i * cols + j;
            match parse_u64(response.data[idx].as_str()) {
                Some(x) => {
                    row.push(x);
                },
                None => {
                    return Err(
                        PirError::Serialization("entry is not a 64-bit decimal".to_owned()),
                    );
                },
            }
            j = j + 1;
        }
        data.push(row);
        i = i + 1;
    }
    let m = Matrix { data };
    Ok(m)
}

/// Serialises parameters: dimensions as numbers, the two moduli as decimal
/// strings.
pub fn serialize_params(params: &SimplePIRParams) -> (r: ParamsData)
    requires
        params.wf(),
    ensures
        r.m == params.m,
        r.n == params.n,
        r.q@ == dec_digits(q_int() as nat),
        r.p@ == dec_digits(params.p_int() as nat),
{
    let p = params.p();
    ParamsData {
        m: params.m,
        n: params.n,
        q: u128_to_decimal(params.q()),
        p: u128_to_decimal(p),
    }
}

/// Reconstructs parameters from the wire: the plaintext modulus exponent is
/// recovered as the position of `p`'s highest set bit, assuming `p` is a
/// power of two; a fresh seed is drawn, since the public matrix itself
/// travels separately. Fails exactly on a degenerate shape or a `p` that is
/// not the decimal form of a value in `[2, 2^64]`.
pub fn deserialize_params(data: &ParamsData) -> (r: Result<SimplePIRParams, PirError>)
    ensures
        match r {
            Ok(params) => {
                &&& data.m >= 1
                &&& data.n >= 1
                &&& data.p@.len() >= 1
                &&& all_digits(data.p@)
                &&& 2 <= dec_val(data.p@) <= q_int()
                &&& params.wf()
                &&& params.m == data.m
                &&& params.n == data.n
                &&& pow2(params.mod_power as nat) <= dec_val(data.p@) < pow2(
                    (params.mod_power + 1) as nat,
                )
            },
            Err(e) => {
                &&& e matches PirError::Serialization(_)
                &&& !(data.m >= 1 && data.n >= 1 && data.p@.len() >= 1 && all_digits(data.p@) && 2
                    <= dec_val(data.p@) <= q_int())
            },
        },
{
    if data.m == 0 || data.n == 0 {
        return Err(PirError::Serialization("parameter shape is degenerate".to_owned()));
    }
    let val = match parse_decimal(data.p.as_str(), 0x2_0000_0000_0000_0000u128) {
        Some(x) => x,
        None => {
            return Err(
                PirError::Serialization("plaintext modulus is not a decimal in range".to_owned()),
            );
        },
    };
    if val < 2 {
        return Err(PirError::Serialization("plaintext modulus is too small".to_owned()));
    }
    if val > Q128 {
        return Err(PirError::Serialization("plaintext modulus exceeds q".to_owned()));
    }
    // the highest set bit of `val`
    let mut k: u32 = 0;
    let mut t: u128 = val;
    proof {
        lemma2_to64();
        assert(val / pow2(0) as u128 == val);
    }
    while t >= 2
        invariant
            t == (val as int) / (pow2(k as nat) as int),
            val <= 0x1_0000_0000_0000_0000,
            val >= 2,
            t >= 1,
            k <= 64,
        decreases t,
    {
        proof {
            lemma_pow2_unfold_step(val as int, k as nat);
            lemma2_to64();
            assert(k < 64) by {
                if k >= 64 {
                    lemma_pow2_le(64, k as nat);
                    assert(pow2(k as nat) >= pow2(64));
                    vstd::arithmetic::div_mod::lemma_div_is_ordered_by_denominator(
                        val as int,
                        pow2(64) as int,
                        pow2(k as nat) as int,
                    );
                    vstd::arithmetic::div_mod::lemma_div_is_ordered(
                        val as int,
                        pow2(64) as int,
                        pow2(64) as int,
                    );
                    assert(t <= val as int / pow2(64) as int);
                    assert(val as int / pow2(64) as int <= 1) by (nonlinear_arith)
                        requires
                            val <= pow2(64),
                            pow2(64) >= 1,
                            val as int / pow2(64) as int >= 0,
                            pow2(64) as int * (val as int / pow2(64) as int) <= val,
                    ;
                    assert(false);
                }
            }
        }
        t = t / 2;
        k = k + 1;
    }
    proof {
        assert(t == 1);
        vstd::arithmetic::power2::lemma_pow2_pos(k as nat);
        vstd::arithmetic::div_mod::lemma_fundamental_div_mod(val as int, pow2(k as nat) as int);
        vstd::arithmetic::power2::lemma_pow2_adds(k as nat, 1);
        lemma2_to64();
        assert(pow2(k as nat) <= val < pow2((k + 1) as nat)) by (nonlinear_arith)
            requires
                val as int == pow2(k as nat) * 1 + (val as int) % (pow2(k as nat) as int),
                0 <= (val as int) % (pow2(k as nat) as int) < pow2(k as nat) as int,
                pow2((k + 1) as nat) == pow2(k as nat) * pow2(1),
                pow2(1) == 2,
        ;
        assert(k >= 1) by {
            if k == 0 {
                assert(pow2(1) == 2);
                assert(val < 2);
            }
        }
    }
    Ok(gen_params(data.m, data.n, k))
}

/// One step of repeated halving: dividing the running quotient by two moves
/// one power of two into the denominator.
proof fn lemma_pow2_unfold_step(x: int, k: nat)
    requires
        x >= 0,
    ensures
        (x / pow2(k) as int) / 2 == x / pow2((k + 1) as nat) as int,
{
    vstd::arithmetic::power2::lemma_pow2_adds(k, 1);
    vstd::arithmetic::power2::lemma_pow2_pos(k);
    lemma2_to64();
    vstd::arithmetic::div_mod::lemma_div_denominator(x, pow2(k) as int, 2);
}

/// `pow2` is monotone.
proof fn lemma_pow2_le(a: nat, b: nat)
    requires
        a <= b,
    ensures
        pow2(a) <= pow2(b),
{
    if a < b {
        lemma_pow2_strictly_increases(a, b);
    }
}

} // verus!
