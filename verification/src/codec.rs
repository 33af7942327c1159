//! Encoding of keys and values into record payloads.
//!
//! A [`KvCodec`] turns a key and value into the payload bytes of a
//! record and back; the codec's specification functions name both
//! directions, and every encoder promises that its output decodes back
//! to what was encoded.  [`I64StringCodec`] is the library's shipped
//! instantiation for `i64` keys and `String` values: JSON payloads for
//! the text format (through serde_json) and compact binary payloads for
//! the binary format (through bincode2).

use vstd::prelude::*;
use crate::encdec::{spec_dec, lemma_dec_bytes};
use crate::bin_format::{spec_le_bytes, pow256, lemma_le_bytes_val, lemma_pow256_8};
use crate::format::SerializedError;

verus! {

/// What `serde_json::to_vec` returns for a pair of an `i64` and a
/// `String`: a function of the two alone.
pub uninterp spec fn json_of_pair(k: int, v: Seq<char>) -> Seq<u8>;

/// What `serde_json::from_slice` decodes a byte string to, when read as
/// a pair of an `i64` and a `String`: a function of the bytes alone.
pub uninterp spec fn pair_of_json(b: Seq<u8>) -> Option<(int, Seq<char>)>;

/// What `serde_json::from_slice` decodes a byte string to, when read as
/// an `i64` alone.
pub uninterp spec fn key_of_json(b: Seq<u8>) -> Option<int>;

/// What `bincode2::serialize` returns for a pair of an `i64` and a
/// `String`.
pub uninterp spec fn bin_of_pair(k: int, v: Seq<char>) -> Seq<u8>;

/// What `bincode2::deserialize` decodes a byte string to, when read as a
/// pair of an `i64` and a `String`.
pub uninterp spec fn pair_of_bin(b: Seq<u8>) -> Option<(int, Seq<char>)>;

/// What `bincode2::deserialize` decodes a byte string to, when read as
/// an `i64` alone.
pub uninterp spec fn key_of_bin(b: Seq<u8>) -> Option<int>;

/// The JSON rendering of an `i64`: its decimal digits, with a leading
/// minus sign when negative.
pub open spec fn spec_json_i64(k: int) -> Seq<u8> {
    if k < 0 {
        seq![45u8] + spec_dec(-k)
    } else {
        spec_dec(k)
    }
}

/// The bincode rendering of an `i64`: its two's-complement value in
/// eight little-endian bytes.
pub open spec fn spec_bin_i64(k: int) -> Seq<u8> {
    spec_le_bytes(
        if k >= 0 {
            k
        } else {
            k + 0x1_0000_0000_0000_0000
        },
        8,
    )
}

/// The JSON rendering of a key holds no newline and is not empty.
pub proof fn lemma_json_i64_bytes(k: int)
    requires
        i64::MIN <= k <= i64::MAX,
    ensures
        forall|i: int| 0 <= i < spec_json_i64(k).len() ==> (#[trigger] spec_json_i64(k)[i])
            != 10u8,
        spec_json_i64(k).len() >= 1,
{
    if k < 0 {
        lemma_dec_bytes(-k);
    } else {
        lemma_dec_bytes(k);
    }
}

/// The bincode rendering of a key is eight bytes.
pub proof fn lemma_bin_i64_bytes(k: int)
    requires
        i64::MIN <= k <= i64::MAX,
    ensures
        spec_bin_i64(k).len() == 8,
{
    lemma_pow256_8();
    if k >= 0 {
        lemma_le_bytes_val(k, 8);
    } else {
        lemma_le_bytes_val(k + 0x1_0000_0000_0000_0000, 8);
    }
}

/// Relies on `serde_json::to_vec` on a pair of `i64` and `String`: the
/// compact JSON array of the two.  It cannot fail for these types, its
/// output holds no newline (control characters are escaped), and
/// `serde_json::from_slice` reads the pair back.
#[verifier::external_body]
fn json_pair_enc(k: i64, v: &String) -> (r: Vec<u8>)
    ensures
        r@ == json_of_pair(k as int, v@),
        pair_of_json(r@) == Some((k as int, v@)),
        forall|i: int| 0 <= i < r@.len() ==> (#[trigger] r@[i]) != 10u8,
{
    serde_json::to_vec(&(k, v)).unwrap()
}

/// Relies on `serde_json::from_slice` reading a pair of `i64` and
/// `String`: a function of the bytes alone.
#[verifier::external_body]
fn json_pair_dec(b: &[u8]) -> (r: Option<(i64, String)>)
    ensures
        match r {
            Some(p) => pair_of_json(b@) == Some((p.0 as int, p.1@)),
            None => pair_of_json(b@) is None,
        },
{
    serde_json::from_slice::<(i64, String)>(b).ok()
}

/// Relies on `serde_json::to_vec` on an `i64`: the decimal rendering,
/// which cannot fail, and which `serde_json::from_slice` reads back.
#[verifier::external_body]
fn json_key_enc(k: i64) -> (r: Vec<u8>)
    ensures
        r@ == spec_json_i64(k as int),
        key_of_json(r@) == Some(k as int),
{
    serde_json::to_vec(&k).unwrap()
}

/// Relies on `serde_json::from_slice` reading an `i64`: a function of
/// the bytes alone.
#[verifier::external_body]
fn json_key_dec(b: &[u8]) -> (r: Option<i64>)
    ensures
        match r {
            Some(k) => key_of_json(b@) == Some(k as int),
            None => key_of_json(b@) is None,
        },
{
    serde_json::from_slice::<i64>(b).ok()
}

/// Relies on `bincode2::serialize` on a pair of `i64` and `String`: the
/// fixed eight-byte key followed by the length-prefixed string bytes.
/// It cannot fail for these types, is never empty, and
/// `bincode2::deserialize` reads the pair back.
#[verifier::external_body]
fn bin_pair_enc(k: i64, v: &String) -> (r: Vec<u8>)
    ensures
        r@ == bin_of_pair(k as int, v@),
        pair_of_bin(r@) == Some((k as int, v@)),
        r@.len() >= 1,
{
    bincode2::serialize(&(k, v)).unwrap()
}

/// Relies on `bincode2::deserialize` reading a pair of `i64` and
/// `String`: a function of the bytes alone.
#[verifier::external_body]
fn bin_pair_dec(b: &[u8]) -> (r: Option<(i64, String)>)
    ensures
        match r {
            Some(p) => pair_of_bin(b@) == Some((p.0 as int, p.1@)),
            None => pair_of_bin(b@) is None,
        },
{
    bincode2::deserialize::<(i64, String)>(b).ok()
}

/// Relies on `bincode2::serialize` on an `i64`: the two's-complement
/// value in eight little-endian bytes (the default configuration uses
/// fixed-width little-endian integers), which `bincode2::deserialize`
/// reads back.
#[verifier::external_body]
fn bin_key_enc(k: i64) -> (r: Vec<u8>)
    ensures
        r@ == spec_bin_i64(k as int),
        key_of_bin(r@) == Some(k as int),
{
    bincode2::serialize(&k).unwrap()
}

/// Relies on `bincode2::deserialize` reading an `i64`: a function of the
/// bytes alone.
#[verifier::external_body]
fn bin_key_dec(b: &[u8]) -> (r: Option<i64>)
    ensures
        match r {
            Some(k) => key_of_bin(b@) == Some(k as int),
            None => key_of_bin(b@) is None,
        },
{
    bincode2::deserialize::<i64>(b).ok()
}

/// Encodes keys and values into record payloads, in both formats.  Every
/// encoder's output decodes back to what was encoded, holds no newline
/// in the text format, and is neither empty nor over-long in the binary
/// format.
pub trait KvCodec<K: DeepView, V: DeepView> {
    /// The inputs whose text insert payload the codec can produce: an
    /// encoder may fail only outside this set.
    spec fn text_pair_encodable(k: <K as DeepView>::V, v: <V as DeepView>::V) -> bool;

    /// The keys whose text remove payload the codec can produce.
    spec fn text_key_encodable(k: <K as DeepView>::V) -> bool;

    /// The inputs whose binary insert payload the codec can produce.
    spec fn bin_pair_encodable(k: <K as DeepView>::V, v: <V as DeepView>::V) -> bool;

    /// The keys whose binary remove payload the codec can produce.
    spec fn bin_key_encodable(k: <K as DeepView>::V) -> bool;

    /// The text payload of an insert record.
    spec fn text_pair(k: <K as DeepView>::V, v: <V as DeepView>::V) -> Seq<u8>;

    /// What a text insert payload decodes to.
    spec fn text_pair_dec(b: Seq<u8>) -> Option<(<K as DeepView>::V, <V as DeepView>::V)>;

    /// The text payload of a remove record.
    spec fn text_key(k: <K as DeepView>::V) -> Seq<u8>;

    /// What a text remove payload decodes to.
    spec fn text_key_dec(b: Seq<u8>) -> Option<<K as DeepView>::V>;

    /// The binary payload of an insert record.
    spec fn bin_pair(k: <K as DeepView>::V, v: <V as DeepView>::V) -> Seq<u8>;

    /// What a binary insert payload decodes to.
    spec fn bin_pair_dec(b: Seq<u8>) -> Option<(<K as DeepView>::V, <V as DeepView>::V)>;

    /// The binary payload of a remove record.
    spec fn bin_key(k: <K as DeepView>::V) -> Seq<u8>;

    /// What a binary remove payload decodes to.
    spec fn bin_key_dec(b: Seq<u8>) -> Option<<K as DeepView>::V>;

    fn enc_pair_text(k: &K, v: &V) -> (r: Result<Vec<u8>, SerializedError>)
        ensures
            match r {
                Ok(b) => {
                    &&& b@ == Self::text_pair(k.deep_view(), v.deep_view())
                    &&& Self::text_pair_dec(b@) == Some((k.deep_view(), v.deep_view()))
                    &&& forall|i: int| 0 <= i < b@.len() ==> (#[trigger] b@[i]) != 10u8
                },
                Err(_) => !Self::text_pair_encodable(k.deep_view(), v.deep_view()),
            },
    ;

    fn dec_pair_text(b: &[u8]) -> (r: Option<(K, V)>)
        ensures
            match r {
                Some(p) => Self::text_pair_dec(b@) == Some((p.0.deep_view(), p.1.deep_view())),
                None => Self::text_pair_dec(b@) is None,
            },
    ;

    fn enc_key_text(k: &K) -> (r: Result<Vec<u8>, SerializedError>)
        ensures
            match r {
                Ok(b) => {
                    &&& b@ == Self::text_key(k.deep_view())
                    &&& Self::text_key_dec(b@) == Some(k.deep_view())
                    &&& forall|i: int| 0 <= i < b@.len() ==> (#[trigger] b@[i]) != 10u8
                },
                Err(_) => !Self::text_key_encodable(k.deep_view()),
            },
    ;

    fn dec_key_text(b: &[u8]) -> (r: Option<K>)
        ensures
            match r {
                Some(k) => Self::text_key_dec(b@) == Some(k.deep_view()),
                None => Self::text_key_dec(b@) is None,
            },
    ;

    fn enc_pair_bin(k: &K, v: &V) -> (r: Result<Vec<u8>, SerializedError>)
        ensures
            match r {
                Ok(b) => {
                    &&& b@ == Self::bin_pair(k.deep_view(), v.deep_view())
                    &&& Self::bin_pair_dec(b@) == Some((k.deep_view(), v.deep_view()))
                    &&& 1 <= b@.len()
                    &&& b@.len() + 40 < pow256(8)
                },
                Err(_) => !Self::bin_pair_encodable(k.deep_view(), v.deep_view()),
            },
    ;

    fn dec_pair_bin(b: &[u8]) -> (r: Option<(K, V)>)
        ensures
            match r {
                Some(p) => Self::bin_pair_dec(b@) == Some((p.0.deep_view(), p.1.deep_view())),
                None => Self::bin_pair_dec(b@) is None,
            },
    ;

    fn enc_key_bin(k: &K) -> (r: Result<Vec<u8>, SerializedError>)
        ensures
            match r {
                Ok(b) => {
                    &&& b@ == Self::bin_key(k.deep_view())
                    &&& Self::bin_key_dec(b@) == Some(k.deep_view())
                    &&& 1 <= b@.len()
                    &&& b@.len() + 40 < pow256(8)
                },
                Err(_) => !Self::bin_key_encodable(k.deep_view()),
            },
    ;

    fn dec_key_bin(b: &[u8]) -> (r: Option<K>)
        ensures
            match r {
                Some(k) => Self::bin_key_dec(b@) == Some(k.deep_view()),
                None => Self::bin_key_dec(b@) is None,
            },
    ;
}

/// The shipped codec for `i64` keys and `String` values: JSON text
/// payloads and bincode binary payloads.  Encoding never fails for these
/// types.
pub struct I64StringCodec;

impl KvCodec<i64, String> for I64StringCodec {
    open spec fn text_pair_encodable(k: i64, v: Seq<char>) -> bool {
        true
    }

    open spec fn text_key_encodable(k: i64) -> bool {
        true
    }

    open spec fn bin_pair_encodable(k: i64, v: Seq<char>) -> bool {
        bin_of_pair(k as int, v).len() + 65 <= pow256(8)
    }

    open spec fn bin_key_encodable(k: i64) -> bool {
        true
    }

    open spec fn text_pair(k: i64, v: Seq<char>) -> Seq<u8> {
        json_of_pair(k as int, v)
    }

    open spec fn text_pair_dec(b: Seq<u8>) -> Option<(i64, Seq<char>)> {
        match pair_of_json(b) {
            Some((k, v)) => if i64::MIN <= k <= i64::MAX {
                Some((k as i64, v))
            } else {
                None
            },
            None => None,
        }
    }

    open spec fn text_key(k: i64) -> Seq<u8> {
        spec_json_i64(k as int)
    }

    open spec fn text_key_dec(b: Seq<u8>) -> Option<i64> {
        match key_of_json(b) {
            Some(k) => if i64::MIN <= k <= i64::MAX {
                Some(k as i64)
            } else {
                None
            },
            None => None,
        }
    }

    open spec fn bin_pair(k: i64, v: Seq<char>) -> Seq<u8> {
        bin_of_pair(k as int, v)
    }

    open spec fn bin_pair_dec(b: Seq<u8>) -> Option<(i64, Seq<char>)> {
        match pair_of_bin(b) {
            Some((k, v)) => if i64::MIN <= k <= i64::MAX {
                Some((k as i64, v))
            } else {
                None
            },
            None => None,
        }
    }

    open spec fn bin_key(k: i64) -> Seq<u8> {
        spec_bin_i64(k as int)
    }

    open spec fn bin_key_dec(b: Seq<u8>) -> Option<i64> {
        match key_of_bin(b) {
            Some(k) => if i64::MIN <= k <= i64::MAX {
                Some(k as i64)
            } else {
                None
            },
            None => None,
        }
    }

    fn enc_pair_text(k: &i64, v: &String) -> (r: Result<Vec<u8>, SerializedError>)
        ensures
            r is Ok,
    {
        Ok(json_pair_enc(*k, v))
    }

    fn dec_pair_text(b: &[u8]) -> (r: Option<(i64, String)>) {
        json_pair_dec(b)
    }

    fn enc_key_text(k: &i64) -> (r: Result<Vec<u8>, SerializedError>)
        ensures
            r is Ok,
    {
        let b = json_key_enc(*k);
        proof {
            lemma_json_i64_bytes(*k as int);
        }
        Ok(b)
    }

    fn dec_key_text(b: &[u8]) -> (r: Option<i64>) {
        json_key_dec(b)
    }

    fn enc_pair_bin(k: &i64, v: &String) -> (r: Result<Vec<u8>, SerializedError>)
        ensures
            bin_of_pair(*k as int, v@).len() + 65 <= pow256(8) ==> r is Ok,
    {
        let b = bin_pair_enc(*k, v);
        if (b.len() as u64) > u64::MAX - 64 {
            // over-long payloads cannot be framed; refuse them
            proof {
                lemma_pow256_8();
            }
            return Err(SerializedError::Bincode);
        }
        proof {
            lemma_pow256_8();
        }
        Ok(b)
    }

    fn dec_pair_bin(b: &[u8]) -> (r: Option<(i64, String)>) {
        bin_pair_dec(b)
    }

    fn enc_key_bin(k: &i64) -> (r: Result<Vec<u8>, SerializedError>)
        ensures
            r is Ok,
    {
        let b = bin_key_enc(*k);
        proof {
            lemma_bin_i64_bytes(*k as int);
            lemma_pow256_8();
        }
        Ok(b)
    }

    fn dec_key_bin(b: &[u8]) -> (r: Option<i64>) {
        bin_key_dec(b)
    }
}

/// What `serde_json::to_vec` returns for a pair of a `String` and an
/// `i32`: a function of the two alone.
pub uninterp spec fn json_of_str_pair(k: Seq<char>, v: int) -> Seq<u8>;

/// What `serde_json::from_slice` decodes a byte string to, when read as
/// a pair of a `String` and an `i32`.
pub uninterp spec fn str_pair_of_json(b: Seq<u8>) -> Option<(Seq<char>, int)>;

/// What `serde_json::to_vec` returns for a `String` alone.
pub uninterp spec fn json_of_str(k: Seq<char>) -> Seq<u8>;

/// What `serde_json::from_slice` decodes a byte string to, when read as
/// a `String` alone.
pub uninterp spec fn str_of_json(b: Seq<u8>) -> Option<Seq<char>>;

/// What `bincode2::serialize` returns for a pair of a `String` and an
/// `i32`.
pub uninterp spec fn bin_of_str_pair(k: Seq<char>, v: int) -> Seq<u8>;

/// What `bincode2::deserialize` decodes a byte string to, when read as a
/// pair of a `String` and an `i32`.
pub uninterp spec fn str_pair_of_bin(b: Seq<u8>) -> Option<(Seq<char>, int)>;

/// What `bincode2::serialize` returns for a `String` alone.
pub uninterp spec fn bin_of_str(k: Seq<char>) -> Seq<u8>;

/// What `bincode2::deserialize` decodes a byte string to, when read as a
/// `String` alone.
pub uninterp spec fn str_of_bin(b: Seq<u8>) -> Option<Seq<char>>;

/// Relies on `serde_json::to_vec` on a pair of `String` and `i32`: the
/// compact JSON array of the two.  It cannot fail for these types, its
/// output holds no newline (control characters are escaped), and
/// `serde_json::from_slice` reads the pair back.
#[verifier::external_body]
fn json_str_pair_enc(k: &String, v: i32) -> (r: Vec<u8>)
    ensures
        r@ == json_of_str_pair(k@, v as int),
        str_pair_of_json(r@) == Some((k@, v as int)),
        forall|i: int| 0 <= i < r@.len() ==> (#[trigger] r@[i]) != 10u8,
{
    serde_json::to_vec(&(k, v)).unwrap()
}

/// Relies on `serde_json::from_slice` reading a pair of `String` and
/// `i32`: a function of the bytes alone.
#[verifier::external_body]
fn json_str_pair_dec(b: &[u8]) -> (r: Option<(String, i32)>)
    ensures
        match r {
            Some(p) => str_pair_of_json(b@) == Some((p.0@, p.1 as int)),
            None => str_pair_of_json(b@) is None,
        },
{
    serde_json::from_slice::<(String, i32)>(b).ok()
}

/// Relies on `serde_json::to_vec` on a `String`: the escaped, quoted
/// JSON string, which cannot fail, holds no raw newline, and which
/// `serde_json::from_slice` reads back.
#[verifier::external_body]
fn json_str_key_enc(k: &String) -> (r: Vec<u8>)
    ensures
        r@ == json_of_str(k@),
        str_of_json(r@) == Some(k@),
        forall|i: int| 0 <= i < r@.len() ==> (#[trigger] r@[i]) != 10u8,
{
    serde_json::to_vec(k).unwrap()
}

/// Relies on `serde_json::from_slice` reading a `String`: a function of
/// the bytes alone.
#[verifier::external_body]
fn json_str_key_dec(b: &[u8]) -> (r: Option<String>)
    ensures
        match r {
            Some(k) => str_of_json(b@) == Some(k@),
            None => str_of_json(b@) is None,
        },
{
    serde_json::from_slice::<String>(b).ok()
}

/// Relies on `bincode2::serialize` on a pair of `String` and `i32`: the
/// length-prefixed string bytes followed by the fixed four-byte value.
/// It cannot fail for these types, is never empty, and
/// `bincode2::deserialize` reads the pair back.
#[verifier::external_body]
fn bin_str_pair_enc(k: &String, v: i32) -> (r: Vec<u8>)
    ensures
        r@ == bin_of_str_pair(k@, v as int),
        str_pair_of_bin(r@) == Some((k@, v as int)),
        r@.len() >= 1,
{
    bincode2::serialize(&(k, v)).unwrap()
}

/// Relies on `bincode2::deserialize` reading a pair of `String` and
/// `i32`: a function of the bytes alone.
#[verifier::external_body]
fn bin_str_pair_dec(b: &[u8]) -> (r: Option<(String, i32)>)
    ensures
        match r {
            Some(p) => str_pair_of_bin(b@) == Some((p.0@, p.1 as int)),
            None => str_pair_of_bin(b@) is None,
        },
{
    bincode2::deserialize::<(String, i32)>(b).ok()
}

/// Relies on `bincode2::serialize` on a `String`: the eight-byte length
/// followed by the UTF-8 bytes.  It cannot fail, is never empty, and
/// `bincode2::deserialize` reads it back.
#[verifier::external_body]
fn bin_str_key_enc(k: &String) -> (r: Vec<u8>)
    ensures
        r@ == bin_of_str(k@),
        str_of_bin(r@) == Some(k@),
        r@.len() >= 1,
{
    bincode2::serialize(k).unwrap()
}

/// Relies on `bincode2::deserialize` reading a `String`: a function of
/// the bytes alone.
#[verifier::external_body]
fn bin_str_key_dec(b: &[u8]) -> (r: Option<String>)
    ensures
        match r {
            Some(k) => str_of_bin(b@) == Some(k@),
            None => str_of_bin(b@) is None,
        },
{
    bincode2::deserialize::<String>(b).ok()
}

/// The shipped codec for `String` keys and `i32` values: JSON text
/// payloads and bincode binary payloads.  Text encoding never fails;
/// binary encoding fails only beyond a payload length no machine
/// reaches.
pub struct StringI32Codec;

impl KvCodec<String, i32> for StringI32Codec {
    open spec fn text_pair_encodable(k: Seq<char>, v: i32) -> bool {
        true
    }

    open spec fn text_key_encodable(k: Seq<char>) -> bool {
        true
    }

    open spec fn bin_pair_encodable(k: Seq<char>, v: i32) -> bool {
        bin_of_str_pair(k, v as int).len() + 65 <= pow256(8)
    }

    open spec fn bin_key_encodable(k: Seq<char>) -> bool {
        bin_of_str(k).len() + 65 <= pow256(8)
    }

    open spec fn text_pair(k: Seq<char>, v: i32) -> Seq<u8> {
        json_of_str_pair(k, v as int)
    }

    open spec fn text_pair_dec(b: Seq<u8>) -> Option<(Seq<char>, i32)> {
        match str_pair_of_json(b) {
            Some((k, v)) => if i32::MIN <= v <= i32::MAX {
                Some((k, v as i32))
            } else {
                None
            },
            None => None,
        }
    }

    open spec fn text_key(k: Seq<char>) -> Seq<u8> {
        json_of_str(k)
    }

    open spec fn text_key_dec(b: Seq<u8>) -> Option<Seq<char>> {
        str_of_json(b)
    }

    open spec fn bin_pair(k: Seq<char>, v: i32) -> Seq<u8> {
        bin_of_str_pair(k, v as int)
    }

    open spec fn bin_pair_dec(b: Seq<u8>) -> Option<(Seq<char>, i32)> {
        match str_pair_of_bin(b) {
            Some((k, v)) => if i32::MIN <= v <= i32::MAX {
                Some((k, v as i32))
            } else {
                None
            },
            None => None,
        }
    }

    open spec fn bin_key(k: Seq<char>) -> Seq<u8> {
        bin_of_str(k)
    }

    open spec fn bin_key_dec(b: Seq<u8>) -> Option<Seq<char>> {
        str_of_bin(b)
    }

    fn enc_pair_text(k: &String, v: &i32) -> (r: Result<Vec<u8>, SerializedError>)
        ensures
            r is Ok,
    {
        Ok(json_str_pair_enc(k, *v))
    }

    fn dec_pair_text(b: &[u8]) -> (r: Option<(String, i32)>) {
        json_str_pair_dec(b)
    }

    fn enc_key_text(k: &String) -> (r: Result<Vec<u8>, SerializedError>)
        ensures
            r is Ok,
    {
        Ok(json_str_key_enc(k))
    }

    fn dec_key_text(b: &[u8]) -> (r: Option<String>) {
        json_str_key_dec(b)
    }

    fn enc_pair_bin(k: &String, v: &i32) -> (r: Result<Vec<u8>, SerializedError>)
        ensures
            bin_of_str_pair(k@, *v as int).len() + 65 <= pow256(8) ==> r is Ok,
    {
        let b = bin_str_pair_enc(k, *v);
        if (b.len() as u64) > u64::MAX - 64 {
            // over-long payloads cannot be framed; refuse them
            proof {
                lemma_pow256_8();
            }
            return Err(SerializedError::Bincode);
        }
        proof {
            lemma_pow256_8();
        }
        Ok(b)
    }

    fn dec_pair_bin(b: &[u8]) -> (r: Option<(String, i32)>) {
        bin_str_pair_dec(b)
    }

    fn enc_key_bin(k: &String) -> (r: Result<Vec<u8>, SerializedError>)
        ensures
            bin_of_str(k@).len() + 65 <= pow256(8) ==> r is Ok,
    {
        let b = bin_str_key_enc(k);
        if (b.len() as u64) > u64::MAX - 64 {
            // over-long payloads cannot be framed; refuse them
            proof {
                lemma_pow256_8();
            }
            return Err(SerializedError::Bincode);
        }
        proof {
            lemma_pow256_8();
        }
        Ok(b)
    }

    fn dec_key_bin(b: &[u8]) -> (r: Option<String>) {
        bin_str_key_dec(b)
    }
}

} // verus!
