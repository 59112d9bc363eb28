//! Trusted boundary to the outside crates: AES-128-CBC, hex, base64,
//! MessagePack (rmpv), JSON parsing (serde_json), UTF-8 string building,
//! and request-id generation.
//!
//! Each `external_body` function here wraps exactly one outside call plus
//! argument/result conversion; its contract states what the outside crate's
//! source and documentation promise, over named results where the exact
//! value would take pages to state.

use vstd::prelude::*;

use aes::cipher::block_padding::NoPadding;
use aes::cipher::{BlockModeDecrypt, BlockModeEncrypt, KeyIvInit};
use base64::Engine;
use rmpv::Value as RmpVal;
use serde_json::Value as SjVal;

use crate::value::{JModel, JsonMap, JsonVal, MModel, MsgVal};

verus! {

#[verifier::external_type_specification]
#[verifier::external_body]
pub struct ExRmpvValue(rmpv::Value);

#[verifier::external_type_specification]
#[verifier::external_body]
pub struct ExJsonValue(serde_json::Value);

#[verifier::external_type_specification]
#[verifier::external_body]
pub struct ExJsonNumber(serde_json::Number);

/// What AES-128-CBC encryption emits for a given key, IV and plaintext.
pub uninterp spec fn aes_cbc_enc_of(key: Seq<u8>, iv: Seq<u8>, pt: Seq<u8>) -> Seq<u8>;

/// What AES-128-CBC decryption emits for a given key, IV and ciphertext.
pub uninterp spec fn aes_cbc_dec_of(key: Seq<u8>, iv: Seq<u8>, ct: Seq<u8>) -> Seq<u8>;

/// The MessagePack encoding of a value with the given model.
pub uninterp spec fn msgpack_bytes_of(m: MModel) -> Seq<u8>;

/// The model of the MessagePack value read from the given bytes, or `None`
/// when they hold no well-formed value.
pub uninterp spec fn msgpack_model_of(b: Seq<u8>) -> Option<MModel>;

/// The model of the value held by an `rmpv::Value`, which Verus otherwise
/// treats as opaque.
pub uninterp spec fn wire_model_of(v: rmpv::Value) -> MModel;

/// The model of the JSON document parsed from the given bytes, or `None`
/// when they are not valid JSON.
pub uninterp spec fn json_model_of(b: Seq<u8>) -> Option<JModel>;

/// The model of the value held by a `serde_json::Value`.
pub uninterp spec fn json_wire_model_of(v: serde_json::Value) -> JModel;

/// The standard-alphabet, padded base64 encoding of the given bytes.
pub uninterp spec fn b64_std_of(b: Seq<u8>) -> Seq<u8>;

/// Standard-alphabet, padded base64 decoding; `None` on invalid input.
pub uninterp spec fn b64_std_decode_of(s: Seq<u8>) -> Option<Seq<u8>>;

/// URL-safe, unpadded base64 decoding; `None` on invalid input.
pub uninterp spec fn b64_url_decode_of(s: Seq<u8>) -> Option<Seq<u8>>;

/// Whether `c` is an ASCII hexadecimal digit.
pub open spec fn is_hex_digit(c: char) -> bool {
    ('0' <= c && c <= '9') || ('a' <= c && c <= 'f') || ('A' <= c && c <= 'F')
}

/// Numeric value of an ASCII hexadecimal digit.
pub open spec fn hex_digit_val(c: char) -> u8 {
    if '0' <= c && c <= '9' {
        (c as u8 - '0' as u8) as u8
    } else if 'a' <= c && c <= 'f' {
        (c as u8 - 'a' as u8 + 10) as u8
    } else {
        (c as u8 - 'A' as u8 + 10) as u8
    }
}

/// Hex decoding: defined iff the length is even and every character is a
/// hexadecimal digit; each output byte combines two digits.
pub open spec fn spec_hex_decode(s: Seq<char>) -> Option<Seq<u8>> {
    if s.len() % 2 == 0 && (forall|i: int| 0 <= i < s.len() ==> is_hex_digit(s[i])) {
        Some(
            Seq::new(
                (s.len() / 2) as nat,
                |i: int| (hex_digit_val(s[2 * i]) * 16 + hex_digit_val(s[2 * i + 1])) as u8,
            ),
        )
    } else {
        None
    }
}

/// Relies on hex::decode: two hexadecimal digits per byte, an error on an
/// odd length or a non-digit.
#[verifier::external_body]
pub fn hex_decode(s: &str) -> (r: Option<Vec<u8>>)
    ensures
        match r {
            Some(v) => spec_hex_decode(s@) == Some(v@),
            None => spec_hex_decode(s@) is None,
        },
{
    hex::decode(s).ok()
}

/// Relies on cbc::Encryptor<aes::Aes128>: CBC-mode AES-128 encryption of a
/// block-aligned buffer keeps its length, and cbc::Decryptor inverts it
/// under the same key and IV.
#[verifier::external_body]
pub fn aes128_cbc_encrypt(key: &[u8], iv: &[u8], pt: &[u8]) -> (r: Vec<u8>)
    requires
        key@.len() == 16,
        iv@.len() == 16,
        pt@.len() % 16 == 0,
    ensures
        r@ == aes_cbc_enc_of(key@, iv@, pt@),
        r@.len() == pt@.len(),
        pt@.len() > 0 ==> aes_cbc_dec_of(key@, iv@, r@) == pt@,
{
    let mut k = [0u8; 16];
    k.copy_from_slice(key);
    let mut v = [0u8; 16];
    v.copy_from_slice(iv);
    let enc = cbc::Encryptor::<aes::Aes128>::new(&k.into(), &v.into());
    enc.encrypt_padded_vec::<NoPadding>(pt)
}

/// Relies on cbc::Decryptor<aes::Aes128>: CBC-mode AES-128 decryption of a
/// non-empty block-aligned buffer succeeds and keeps its length.
#[verifier::external_body]
pub fn aes128_cbc_decrypt(key: &[u8], iv: &[u8], ct: &[u8]) -> (r: Option<Vec<u8>>)
    requires
        key@.len() == 16,
        iv@.len() == 16,
    ensures
        ct@.len() % 16 == 0 && ct@.len() > 0 ==> match r {
            Some(v) => v@ == aes_cbc_dec_of(key@, iv@, ct@) && v@.len() == ct@.len(),
            None => false,
        },
{
    let mut k = [0u8; 16];
    k.copy_from_slice(key);
    let mut v = [0u8; 16];
    v.copy_from_slice(iv);
    let dec = cbc::Decryptor::<aes::Aes128>::new(&k.into(), &v.into());
    dec.decrypt_padded_vec::<NoPadding>(ct).ok()
}

/// Whether a MessagePack model holds a float anywhere. The library never
/// encodes floats (it has no floating-point values of its own), so encoding
/// declines such values.
pub open spec fn mmodel_has_float(m: MModel) -> bool
    decreases m,
{
    match m {
        MModel::F32(_) => true,
        MModel::F64(_) => true,
        MModel::Arr(items) => seq_mmodel_has_float(items),
        MModel::MapM(pairs) => pairs_mmodel_has_float(pairs),
        _ => false,
    }
}

/// Whether any element of `items` holds a float.
pub open spec fn seq_mmodel_has_float(items: Seq<MModel>) -> bool
    decreases items,
{
    if items.len() == 0 {
        false
    } else {
        mmodel_has_float(items.last()) || seq_mmodel_has_float(items.drop_last())
    }
}

/// Whether any key or value of `pairs` holds a float.
pub open spec fn pairs_mmodel_has_float(pairs: Seq<(MModel, MModel)>) -> bool
    decreases pairs,
{
    if pairs.len() == 0 {
        false
    } else {
        mmodel_has_float(pairs.last().0) || mmodel_has_float(pairs.last().1)
            || pairs_mmodel_has_float(pairs.drop_last())
    }
}

/// Pairs of float-free models make a float-free pair sequence.
pub proof fn lemma_pairs_no_float(pairs: Seq<(MModel, MModel)>)
    requires
        forall|i: int|
            0 <= i < pairs.len() ==> !mmodel_has_float(#[trigger] pairs[i].0) && !mmodel_has_float(
                pairs[i].1,
            ),
    ensures
        !pairs_mmodel_has_float(pairs),
    decreases pairs,
{
    if pairs.len() > 0 {
        assert(forall|i: int|
            0 <= i < pairs.len() - 1 ==> #[trigger] pairs.drop_last()[i] == pairs[i]);
        lemma_pairs_no_float(pairs.drop_last());
    }
}

/// Relies on the layout of rmpv::Value: builds the wire value whose model
/// is the given value's, normalising integers through rmpv's own `From`.
/// Declines values holding floats, which this library never produces.
#[verifier::external_body]
pub fn to_wire(v: &MsgVal) -> (r: Option<rmpv::Value>)
    ensures
        match r {
            Some(w) => wire_model_of(w) == v@,
            None => mmodel_has_float(v@),
        },
{
    Some(match v {
        MsgVal::Arr(a) => RmpVal::Array(a.iter().map(to_wire).collect::<Option<_>>()?),
        MsgVal::MapV(p) => RmpVal::Map(p.iter().map(to_wire_pair).collect::<Option<_>>()?),
        _ => return to_wire_scalar(v),
    })
}

/// Relies on the layout of rmpv::Value: the scalar arms of `to_wire`.
#[verifier::external_body]
fn to_wire_scalar(v: &MsgVal) -> (r: Option<rmpv::Value>)
    requires
        !(v is Arr),
        !(v is MapV),
    ensures
        match r {
            Some(w) => wire_model_of(w) == v@,
            None => mmodel_has_float(v@),
        },
{
    Some(match v {
        MsgVal::Null => RmpVal::Nil,
        MsgVal::Bool(b) => RmpVal::Boolean(*b),
        MsgVal::Int(n) => RmpVal::Integer((*n).into()),
        MsgVal::UInt(n) => RmpVal::Integer((*n).into()),
        MsgVal::F32(_) | MsgVal::F64(_) => return None,
        MsgVal::Str(s) => RmpVal::String(s.clone().into()),
        MsgVal::Bin(b) => RmpVal::Binary(b.clone()),
        MsgVal::Ext(t, d) => RmpVal::Ext(*t, d.clone()),
        _ => return None,
    })
}

/// Relies on the layout of rmpv::Value: converts one map entry for
/// `to_wire`, declining floats the same way.
#[verifier::external_body]
fn to_wire_pair(p: &(MsgVal, MsgVal)) -> (r: Option<(rmpv::Value, rmpv::Value)>)
    ensures
        match r {
            Some(w) => wire_model_of(w.0) == p.0@ && wire_model_of(w.1) == p.1@,
            None => mmodel_has_float(p.0@) || mmodel_has_float(p.1@),
        },
{
    Some((to_wire(&p.0)?, to_wire(&p.1)?))
}

/// Relies on the layout of rmpv::Value: reads the model back out, mapping
/// an integer to signed when it fits and a non-UTF-8 string to empty, as
/// rmpv's accessors do.
#[verifier::external_body]
pub fn from_wire(v: rmpv::Value) -> (r: MsgVal)
    ensures
        r@ == wire_model_of(v),
{
    match v {
        RmpVal::Array(a) => MsgVal::Arr(a.into_iter().map(from_wire).collect()),
        RmpVal::Map(p) => MsgVal::MapV(p.into_iter().map(from_wire_pair).collect()),
        other => from_wire_scalar(other),
    }
}

/// Relies on the layout of rmpv::Value: the scalar arms of `from_wire`,
/// sending a composite back to it.
#[verifier::external_body]
fn from_wire_scalar(v: rmpv::Value) -> (r: MsgVal)
    ensures
        r@ == wire_model_of(v),
{
    match v {
        RmpVal::Nil => MsgVal::Null,
        RmpVal::Boolean(b) => MsgVal::Bool(b),
        RmpVal::Integer(i) => i.as_i64().map(MsgVal::Int).unwrap_or(MsgVal::UInt(i.as_u64().unwrap_or(0))),
        RmpVal::F32(f) => MsgVal::F32(f.to_bits()),
        RmpVal::F64(f) => MsgVal::F64(f.to_bits()),
        RmpVal::String(s) => MsgVal::Str(s.into_str().unwrap_or_default()),
        RmpVal::Binary(b) => MsgVal::Bin(b),
        RmpVal::Ext(t, d) => MsgVal::Ext(t, d),
        other => from_wire(other),
    }
}

/// Relies on the layout of rmpv::Value: converts one map entry for
/// `from_wire`.
#[verifier::external_body]
fn from_wire_pair(p: (rmpv::Value, rmpv::Value)) -> (r: (MsgVal, MsgVal))
    ensures
        r.0@ == wire_model_of(p.0),
        r.1@ == wire_model_of(p.1),
{
    (from_wire(p.0), from_wire(p.1))
}

/// Nesting depth of a MessagePack model, for the decoder's recursion bound.
pub open spec fn mmodel_depth(m: MModel) -> nat
    decreases m,
{
    match m {
        MModel::Arr(items) => 1 + seq_mmodel_depth(items),
        MModel::MapM(pairs) => 1 + pairs_mmodel_depth(pairs),
        _ => 1,
    }
}

/// Largest depth among the elements of `items`.
pub open spec fn seq_mmodel_depth(items: Seq<MModel>) -> nat
    decreases items,
{
    if items.len() == 0 {
        0
    } else {
        let d = mmodel_depth(items.last());
        let rest = seq_mmodel_depth(items.drop_last());
        if d > rest {
            d
        } else {
            rest
        }
    }
}

/// Largest depth among the keys and values of `pairs`.
pub open spec fn pairs_mmodel_depth(pairs: Seq<(MModel, MModel)>) -> nat
    decreases pairs,
{
    if pairs.len() == 0 {
        0
    } else {
        let dk = mmodel_depth(pairs.last().0);
        let dv = mmodel_depth(pairs.last().1);
        let d = if dk > dv {
            dk
        } else {
            dv
        };
        let rest = pairs_mmodel_depth(pairs.drop_last());
        if d > rest {
            d
        } else {
            rest
        }
    }
}

/// Relies on rmpv::encode::write_value: encoding to an in-memory buffer
/// cannot hit an I/O error, and the bytes are a function of the value
/// alone. rmpv::decode::read_value reads the same value back while its
/// recursion budget of 1024 holds; each nesting level of an array or map
/// costs two decrements (one in the value reader, one in the collection
/// reader) and a leaf costs a few more, so only values of depth at most
/// 500 are promised to decode. Declines values holding floats.
#[verifier::external_body]
pub fn msgpack_encode(v: &MsgVal) -> (r: Option<Vec<u8>>)
    ensures
        match r {
            Some(b) => {
                &&& b@ == msgpack_bytes_of(v@)
                &&& mmodel_depth(v@) <= 500 ==> msgpack_model_of(b@) == Some(v@)
            },
            None => mmodel_has_float(v@),
        },
{
    let wire = to_wire(v)?;
    let mut buf: Vec<u8> = Vec::new();
    match rmpv::encode::write_value(&mut buf, &wire) {
        Ok(()) => Some(buf),
        Err(_) => None,
    }
}

/// Relies on rmpv::decode::read_value: reads one MessagePack value from
/// the front of the buffer; what it returns is a function of the bytes.
#[verifier::external_body]
pub fn msgpack_decode(b: &[u8]) -> (r: Option<MsgVal>)
    ensures
        match r {
            Some(v) => msgpack_model_of(b@) == Some(v@),
            None => msgpack_model_of(b@) is None,
        },
{
    let mut cur = b;
    match rmpv::decode::read_value(&mut cur) {
        Ok(v) => Some(from_wire(v)),
        Err(_) => None,
    }
}

/// Relies on the layout of serde_json::Value: reads the model out,
/// disambiguating numbers through serde_json's own accessors and carrying
/// floats as bits.
#[verifier::external_body]
pub fn from_json_wire(v: serde_json::Value) -> (r: JsonVal)
    ensures
        r@ == json_wire_model_of(v),
{
    match v {
        SjVal::Null => JsonVal::Null,
        SjVal::Bool(b) => JsonVal::Bool(b),
        SjVal::Number(n) => from_json_number(n),
        SjVal::String(s) => JsonVal::Str(s),
        SjVal::Array(a) => JsonVal::Arr(a.into_iter().map(from_json_wire).collect()),
        SjVal::Object(m) => JsonVal::Obj(JsonMap { entries: m.into_iter().map(|p| (p.0, from_json_wire(p.1))).collect() }),
    }
}

/// What a JSON number denotes: a function of the number alone.
pub uninterp spec fn json_number_model_of(n: serde_json::Number) -> JModel;

/// Relies on serde_json::Number's accessors: signed first, then unsigned,
/// floats carried as bits.
#[verifier::external_body]
fn from_json_number(n: serde_json::Number) -> (r: JsonVal)
    ensures
        r@ == json_number_model_of(n),
{
    match (n.as_i64(), n.as_u64()) {
        (Some(i), _) => JsonVal::Int(i),
        (None, Some(u)) => JsonVal::UInt(u),
        (None, None) => JsonVal::F64(n.as_f64().unwrap_or_default().to_bits()),
    }
}

/// Relies on serde_json::from_slice: parses one JSON document; the result
/// is a function of the bytes alone.
#[verifier::external_body]
pub fn json_decode(b: &[u8]) -> (r: Option<JsonVal>)
    ensures
        match r {
            Some(v) => json_model_of(b@) == Some(v@),
            None => json_model_of(b@) is None,
        },
{
    match serde_json::from_slice::<serde_json::Value>(b) {
        Ok(v) => Some(from_json_wire(v)),
        Err(_) => None,
    }
}

/// Relies on base64's STANDARD engine: the padded standard-alphabet
/// encoding is ASCII, decodes back to the input, and is a function of the
/// input alone.
#[verifier::external_body]
pub fn b64_encode_std(b: &[u8]) -> (r: Vec<u8>)
    ensures
        r@ == b64_std_of(b@),
        b64_std_decode_of(r@) == Some(b@),
        forall|i: int| 0 <= i < r@.len() ==> r@[i] < 128,
{
    base64::engine::general_purpose::STANDARD.encode(b).into_bytes()
}

/// Relies on base64's STANDARD engine: decoding is a function of the
/// input alone and fails exactly on input the engine rejects.
#[verifier::external_body]
pub fn b64_decode_std(b: &[u8]) -> (r: Option<Vec<u8>>)
    ensures
        match r {
            Some(v) => b64_std_decode_of(b@) == Some(v@),
            None => b64_std_decode_of(b@) is None,
        },
{
    base64::engine::general_purpose::STANDARD.decode(b).ok()
}

/// Relies on base64's URL_SAFE_NO_PAD engine: decoding is a function of
/// the input alone and fails exactly on input the engine rejects.
#[verifier::external_body]
pub fn b64_decode_url_nopad(b: &[u8]) -> (r: Option<Vec<u8>>)
    ensures
        match r {
            Some(v) => b64_url_decode_of(b@) == Some(v@),
            None => b64_url_decode_of(b@) is None,
        },
{
    base64::engine::general_purpose::URL_SAFE_NO_PAD.decode(b).ok()
}

/// Relies on String::from_utf8: ASCII bytes are valid UTF-8 and decode to
/// the characters with the same code points.
#[verifier::external_body]
pub fn ascii_to_string(v: Vec<u8>) -> (r: String)
    requires
        forall|i: int| 0 <= i < v@.len() ==> v@[i] < 128,
    ensures
        r@.len() == v@.len(),
        forall|i: int| 0 <= i < v@.len() ==> r@[i] == v@[i] as char,
{
    String::from_utf8(v).unwrap_or_default()
}

/// Relies on String::from_utf8: succeeds exactly on valid UTF-8 and
/// returns the string with those bytes.
#[verifier::external_body]
pub fn utf8_to_string(v: Vec<u8>) -> (r: Option<String>)
    ensures
        match r {
            Some(s) => vstd::utf8::valid_utf8(v@) && vstd::utf8::encode_utf8(s@) == v@,
            None => !vstd::utf8::valid_utf8(v@),
        },
{
    String::from_utf8(v).ok()
}

/// Relies on str::chars: the characters of a string slice, in order, are
/// exactly its view.
#[verifier::external_body]
pub fn str_chars(s: &str) -> (r: Vec<char>)
    ensures
        r@ == s@,
{
    s.chars().collect()
}

/// Relies on String::from_iter over chars: builds the string whose view is
/// exactly the given characters.
#[verifier::external_body]
pub fn chars_to_string(v: &Vec<char>) -> (r: String)
    ensures
        r@ == v@,
{
    v.iter().collect()
}

/// What char::to_lowercase yields for one character: one or more
/// characters, a function of the character alone.
pub uninterp spec fn lower_char_of(c: char) -> Seq<char>;

/// Relies on char::to_lowercase: yields at least one character (the
/// character itself when it has no lowercase mapping).
#[verifier::external_body]
pub fn lowercase_char(c: char) -> (r: Vec<char>)
    ensures
        r@ == lower_char_of(c),
        r@.len() >= 1,
{
    c.to_lowercase().collect()
}

/// What String::from_utf8_lossy yields: a function of the bytes alone.
pub uninterp spec fn utf8_lossy_of(b: Seq<u8>) -> Seq<char>;

/// Relies on String::from_utf8_lossy: renders any bytes as text,
/// replacing invalid sequences; the result is a function of the bytes.
#[verifier::external_body]
pub fn utf8_lossy(b: &[u8]) -> (r: String)
    ensures
        r@ == utf8_lossy_of(b@),
{
    String::from_utf8_lossy(b).into_owned()
}

/// Relies on uuid::Uuid::new_v4: the hyphenated form of a v4 UUID is
/// always 36 characters. The value itself is random, so nothing more is
/// promised.
#[verifier::external_body]
pub fn fresh_request_id() -> (r: String)
    ensures
        r@.len() == 36,
{
    uuid::Uuid::new_v4().hyphenated().to_string()
}

} // verus!
