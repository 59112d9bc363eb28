//! The crypto codec: PKCS7 padding, AES-128-CBC framing of MessagePack
//! payloads, and the order-preserving conversion of decoded values into
//! JSON-shaped values.

use vstd::prelude::*;

use crate::errors::AppError;
use crate::trusted::{
    aes128_cbc_decrypt, aes128_cbc_encrypt, aes_cbc_dec_of, aes_cbc_enc_of, ascii_to_string,
    b64_encode_std, b64_std_of, hex_decode, mmodel_depth, mmodel_has_float, msgpack_bytes_of,
    msgpack_decode, msgpack_encode, msgpack_model_of, spec_hex_decode,
};
use crate::value::{models_of_jvals, obj_contains, obj_insert, JModel, JsonMap, JsonVal, MModel, MsgVal};

verus! {

/// The padding that PKCS7 appends to `data` for a 16-byte block size:
/// `k` copies of the byte `k`, where `k = 16 - len % 16` (so `1 <= k <= 16`).
pub open spec fn spec_pkcs7_padding(len: nat) -> Seq<u8> {
    let k = (16 - len % 16) as nat;
    Seq::new(k, |i: int| k as u8)
}

/// `data` padded per PKCS7: the original bytes followed by the padding run.
pub open spec fn spec_pkcs7_pad(data: Seq<u8>) -> Seq<u8> {
    data + spec_pkcs7_padding(data.len())
}

/// PKCS7 unpadding: defined (`Some`) iff the input is non-empty, its final
/// byte `k` is in `[1, 16]` and at most the length, and the last `k` bytes
/// all equal `k`; the result drops those `k` bytes.
pub open spec fn spec_pkcs7_unpad(data: Seq<u8>) -> Option<Seq<u8>> {
    if data.len() == 0 {
        None
    } else {
        let k = data.last() as int;
        if 1 <= k <= 16 && k <= data.len()
            && (forall|i: int| data.len() - k <= i < data.len() ==> data[i] == k as u8) {
            Some(data.take(data.len() - k))
        } else {
            None
        }
    }
}

/// Pads `data` to a multiple of 16 bytes per PKCS7. The padding length is
/// always in `[1, 16]`, so the result is never empty.
pub fn pkcs7_pad(data: &[u8]) -> (r: Vec<u8>)
    requires
        data@.len() + 16 <= usize::MAX,
    ensures
        r@ == spec_pkcs7_pad(data@),
        r@.len() % 16 == 0,
        r@.len() == data@.len() + (16 - data@.len() % 16),
{
    let k: usize = 16 - data.len() % 16;
    let mut out: Vec<u8> = Vec::new();
    out.extend_from_slice(data);
    let mut i: usize = 0;
    while i < k
        invariant
            i <= k,
            k == 16 - data@.len() % 16,
            out@ == data@ + Seq::new(i as nat, |j: int| k as u8),
        decreases k - i,
    {
        out.push(k as u8);
        i += 1;
        proof {
            assert(out@ =~= data@ + Seq::new(i as nat, |j: int| k as u8));
        }
    }
    proof {
        assert(out@ =~= spec_pkcs7_pad(data@));
    }
    out
}

/// Removes PKCS7 padding; errors (returns `None`) exactly when
/// `spec_pkcs7_unpad` is undefined: empty input, a final byte of `0` or
/// above `16`, a run longer than the data, or a run that is not uniform.
pub fn pkcs7_unpad(data: &[u8]) -> (r: Option<Vec<u8>>)
    ensures
        match r {
            Some(v) => spec_pkcs7_unpad(data@) == Some(v@),
            None => spec_pkcs7_unpad(data@) is None,
        },
{
    if data.len() == 0 {
        return None;
    }
    let k = data[data.len() - 1] as usize;
    if k == 0 || k > 16 || k > data.len() {
        return None;
    }
    let start = data.len() - k;
    let mut i: usize = start;
    while i < data.len()
        invariant
            start <= i <= data@.len(),
            start == data@.len() - k,
            k == data@.last() as int,
            1 <= k <= 16 && k <= data@.len(),
            forall|j: int| start <= j < i ==> data@[j] == k as u8,
        decreases data@.len() - i,
    {
        if data[i] as usize != k {
            return None;
        }
        i += 1;
    }
    let mut out: Vec<u8> = Vec::new();
    let mut j: usize = 0;
    while j < start
        invariant
            j <= start,
            start == data@.len() - k,
            k <= data@.len(),
            out@ == data@.take(j as int),
        decreases start - j,
    {
        out.push(data[j]);
        proof {
            assert(out@ =~= data@.take(j + 1));
        }
        j += 1;
    }
    proof {
        assert(spec_pkcs7_unpad(data@) == Some(data@.take(start as int)));
    }
    Some(out)
}

/// Unpadding inverts padding: for any data, stripping the padding that
/// `spec_pkcs7_pad` appended yields the data again.
pub proof fn lemma_pkcs7_roundtrip(data: Seq<u8>)
    ensures
        spec_pkcs7_unpad(spec_pkcs7_pad(data)) == Some(data),
{
    let padded = spec_pkcs7_pad(data);
    let k = (16 - data.len() % 16) as int;
    assert(padded.last() == k as u8);
    assert(forall|i: int| padded.len() - k <= i < padded.len() ==> padded[i] == k as u8);
    assert(padded.take(padded.len() - k) =~= data);
}

/// Whether `b` is the bit pattern of a finite 32-bit float: the exponent
/// field is not all ones.
pub open spec fn f32_bits_finite(b: u32) -> bool {
    (b >> 23) & 0xff != 0xff
}

/// Whether `b` is the bit pattern of a finite 64-bit float.
pub open spec fn f64_bits_finite(b: u64) -> bool {
    (b >> 52) & 0x7ff != 0x7ff
}

/// Decimal digits (ASCII) of a non-negative integer.
pub open spec fn spec_dec_u(n: nat) -> Seq<u8>
    decreases n,
{
    if n < 10 {
        seq![(48 + n) as u8]
    } else {
        spec_dec_u(n / 10).push((48 + n % 10) as u8)
    }
}

/// Decimal digits of an integer, with a leading minus sign if negative.
pub open spec fn spec_dec_i(n: int) -> Seq<u8> {
    if n < 0 {
        seq![45u8] + spec_dec_u((-n) as nat)
    } else {
        spec_dec_u(n as nat)
    }
}

/// The bytes reinterpreted as characters (only applied to ASCII bytes).
pub open spec fn bytes_to_chars(b: Seq<u8>) -> Seq<char> {
    Seq::new(b.len(), |i: int| b[i] as char)
}

/// The object key a MessagePack map key turns into: strings stay, integers
/// become their decimal form, anything else is dropped.
pub open spec fn spec_key_chars(k: MModel) -> Option<Seq<char>> {
    match k {
        MModel::Str(s) => Some(s),
        MModel::Int(n) => Some(bytes_to_chars(spec_dec_i(n))),
        _ => None,
    }
}

/// The JSON value a decoded MessagePack value turns into: binary and
/// extension payloads become padded standard-alphabet base64 strings,
/// integer map keys become decimal strings, and a non-finite float makes
/// the whole conversion undefined.
pub open spec fn json_of_mmodel(m: MModel) -> Option<JModel>
    decreases m,
{
    match m {
        MModel::Null => Some(JModel::Null),
        MModel::Bool(b) => Some(JModel::Bool(b)),
        MModel::Int(n) => Some(JModel::Int(n)),
        MModel::F32(b) => if f32_bits_finite(b) {
            Some(JModel::F32(b))
        } else {
            None
        },
        MModel::F64(b) => if f64_bits_finite(b) {
            Some(JModel::F64(b))
        } else {
            None
        },
        MModel::Str(s) => Some(JModel::Str(s)),
        MModel::Bin(b) => Some(JModel::Str(bytes_to_chars(b64_std_of(b)))),
        MModel::Ext(_, d) => Some(JModel::Str(bytes_to_chars(b64_std_of(d)))),
        MModel::Arr(items) => match json_of_mseq(items) {
            Some(s) => Some(JModel::Arr(s)),
            None => None,
        },
        MModel::MapM(pairs) => match json_of_mpairs(pairs) {
            Some(o) => Some(JModel::Obj(o)),
            None => None,
        },
    }
}

/// Element-wise conversion of an array; undefined if any element is.
pub open spec fn json_of_mseq(items: Seq<MModel>) -> Option<Seq<JModel>>
    decreases items,
{
    if items.len() == 0 {
        Some(Seq::empty())
    } else {
        match (json_of_mseq(items.drop_last()), json_of_mmodel(items.last())) {
            (Some(s), Some(v)) => Some(s.push(v)),
            _ => None,
        }
    }
}

/// In-order conversion of map pairs into an ordered object: pairs whose
/// key is neither a string nor an integer are dropped before their value
/// is examined; a later duplicate key replaces the earlier value in place.
pub open spec fn json_of_mpairs(pairs: Seq<(MModel, MModel)>) -> Option<
    Seq<(Seq<char>, JModel)>,
>
    decreases pairs,
{
    if pairs.len() == 0 {
        Some(Seq::empty())
    } else {
        match json_of_mpairs(pairs.drop_last()) {
            None => None,
            Some(obj) => match spec_key_chars(pairs.last().0) {
                None => Some(obj),
                Some(k) => match json_of_mmodel(pairs.last().1) {
                    None => None,
                    Some(v) => Some(obj_insert(obj, k, v)),
                },
            },
        }
    }
}


/// Ordered decode stability: for a wire map whose keys are distinct
/// strings, the decoded object holds exactly those keys, in the map's own
/// order.
pub proof fn lemma_ordered_decode_keys(pairs: Seq<(MModel, MModel)>)
    requires
        forall|i: int| 0 <= i < pairs.len() ==> (#[trigger] pairs[i].0) is Str,
        forall|i: int, j: int| 0 <= i < j < pairs.len() ==> pairs[i].0 != pairs[j].0,
        json_of_mpairs(pairs) is Some,
    ensures
        json_of_mpairs(pairs).unwrap().len() == pairs.len(),
        forall|i: int|
            0 <= i < pairs.len() ==> #[trigger] json_of_mpairs(pairs).unwrap()[i].0 == pairs[
                i
            ].0->Str_0,
    decreases pairs,
{
    if pairs.len() > 0 {
        let rest = pairs.drop_last();
        assert(forall|i: int|
            0 <= i < rest.len() ==> #[trigger] rest[i] == pairs[i]);
        assert(json_of_mpairs(rest) is Some) by {
            if json_of_mpairs(rest) is None {
                assert(json_of_mpairs(pairs) is None);
            }
        }
        lemma_ordered_decode_keys(rest);
        let obj_rest = json_of_mpairs(rest).unwrap();
        let key = pairs.last().0->Str_0;
        assert(spec_key_chars(pairs.last().0) == Some(key));
        let v = json_of_mmodel(pairs.last().1);
        assert(v is Some) by {
            if v is None {
                assert(json_of_mpairs(pairs) is None);
            }
        }
        assert(!obj_contains(obj_rest, key)) by {
            crate::value::lemma_obj_index_of(obj_rest, key);
            if obj_contains(obj_rest, key) {
                let w = crate::value::obj_index_of(obj_rest, key);
                assert(obj_rest[w].0 == rest[w].0->Str_0);
                assert(pairs[w].0 == MModel::Str(key));
                assert(pairs[w].0 != pairs[pairs.len() - 1].0);
            }
        }
        assert(json_of_mpairs(pairs).unwrap() == obj_rest.push((key, v.unwrap())));
    }
}

/// A failed element makes the whole array conversion undefined.
proof fn lemma_mseq_none(items: Seq<MModel>, j: int)
    requires
        0 <= j < items.len(),
        json_of_mmodel(items[j]) is None,
    ensures
        json_of_mseq(items) is None,
    decreases items.len(),
{
    if j < items.len() - 1 {
        assert(items.drop_last()[j] == items[j]);
        lemma_mseq_none(items.drop_last(), j);
    }
}

/// A failed value under a kept key makes the whole object conversion
/// undefined.
proof fn lemma_mpairs_none(pairs: Seq<(MModel, MModel)>, j: int)
    requires
        0 <= j < pairs.len(),
        spec_key_chars(pairs[j].0) is Some,
        json_of_mmodel(pairs[j].1) is None,
    ensures
        json_of_mpairs(pairs) is None,
    decreases pairs.len(),
{
    if j < pairs.len() - 1 {
        assert(pairs.drop_last()[j] == pairs[j]);
        lemma_mpairs_none(pairs.drop_last(), j);
    }
}

/// The ciphertext `pack_bytes` produces: PKCS7-pad, then AES-128-CBC.
pub open spec fn spec_pack_bytes(key: Seq<u8>, iv: Seq<u8>, data: Seq<u8>) -> Seq<u8> {
    aes_cbc_enc_of(key, iv, spec_pkcs7_pad(data))
}

/// The plaintext `unpack` recovers from a ciphertext: defined iff the
/// length is a positive multiple of 16 and the decrypted bytes carry valid
/// PKCS7 padding.
pub open spec fn spec_unpack_bytes(key: Seq<u8>, iv: Seq<u8>, ct: Seq<u8>) -> Option<Seq<u8>> {
    if ct.len() > 0 && ct.len() % 16 == 0 {
        spec_pkcs7_unpad(aes_cbc_dec_of(key, iv, ct))
    } else {
        None
    }
}

/// The MessagePack value a ciphertext decodes to, if any.
pub open spec fn spec_unpack_model(key: Seq<u8>, iv: Seq<u8>, ct: Seq<u8>) -> Option<MModel> {
    match spec_unpack_bytes(key, iv, ct) {
        Some(pt) => msgpack_model_of(pt),
        None => None,
    }
}

/// The ordered JSON value a ciphertext decodes to, if any.
pub open spec fn spec_unpack_json(key: Seq<u8>, iv: Seq<u8>, ct: Seq<u8>) -> Option<JModel> {
    match spec_unpack_model(key, iv, ct) {
        Some(m) => json_of_mmodel(m),
        None => None,
    }
}

/// The symmetric codec of one region: AES-128-CBC over PKCS7-padded
/// MessagePack, with the key and IV fixed at construction.
pub struct SekaiCryptor {
    key: Vec<u8>,
    iv: Vec<u8>,
}

impl SekaiCryptor {
    /// The 16 key bytes.
    pub closed spec fn spec_key(&self) -> Seq<u8> {
        self.key@
    }

    /// The 16 IV bytes.
    pub closed spec fn spec_iv(&self) -> Seq<u8> {
        self.iv@
    }

    /// A codec is well formed when its key and IV are exactly 16 bytes.
    pub open spec fn wf(&self) -> bool {
        self.spec_key().len() == 16 && self.spec_iv().len() == 16
    }

    /// Build a codec from two hex strings; each must decode to exactly 16
    /// bytes, otherwise the result is a `CryptoError`.
    pub fn from_hex(key_hex: &str, iv_hex: &str) -> (r: Result<SekaiCryptor, AppError>)
        ensures
            match r {
                Ok(c) => {
                    &&& c.wf()
                    &&& spec_hex_decode(key_hex@) == Some(c.spec_key())
                    &&& spec_hex_decode(iv_hex@) == Some(c.spec_iv())
                },
                Err(e) => {
                    &&& e is CryptoError
                    &&& !match (spec_hex_decode(key_hex@), spec_hex_decode(iv_hex@)) {
                        (Some(k), Some(v)) => k.len() == 16 && v.len() == 16,
                        _ => false,
                    }
                },
            },
    {
        let key = match hex_decode(key_hex) {
            Some(k) => k,
            None => {
                return Err(AppError::CryptoError("Invalid AES key hex".to_owned()));
            }
        };
        let iv = match hex_decode(iv_hex) {
            Some(v) => v,
            None => {
                return Err(AppError::CryptoError("Invalid AES IV hex".to_owned()));
            }
        };
        if key.len() != 16 {
            return Err(AppError::CryptoError("Invalid key length: want 16".to_owned()));
        }
        if iv.len() != 16 {
            return Err(AppError::CryptoError("Invalid IV length: want 16".to_owned()));
        }
        Ok(SekaiCryptor { key, iv })
    }

    /// Encrypt caller-supplied MessagePack bytes: PKCS7-pad to a 16-byte
    /// boundary, then AES-128-CBC. Rejects empty input with `CryptoError`;
    /// on success, `unpack`ing the ciphertext recovers the input bytes.
    pub fn pack_bytes(&self, data: &[u8]) -> (r: Result<Vec<u8>, AppError>)
        requires
            self.wf(),
            data@.len() + 16 <= usize::MAX,
        ensures
            match r {
                Ok(ct) => {
                    &&& data@.len() > 0
                    &&& ct@ == spec_pack_bytes(self.spec_key(), self.spec_iv(), data@)
                    &&& ct@.len() == spec_pkcs7_pad(data@).len()
                    &&& ct@.len() % 16 == 0 && ct@.len() > 0
                    &&& spec_unpack_bytes(self.spec_key(), self.spec_iv(), ct@) == Some(data@)
                },
                Err(e) => data@.len() == 0 && e is CryptoError,
            },
    {
        if data.len() == 0 {
            return Err(AppError::CryptoError("Content cannot be empty".to_owned()));
        }
        let padded = pkcs7_pad(data);
        let ct = aes128_cbc_encrypt(self.key.as_slice(), self.iv.as_slice(), padded.as_slice());
        proof {
            lemma_pkcs7_roundtrip(data@);
        }
        Ok(ct)
    }

    /// MessagePack-encode a value and encrypt it. Fails only on a value
    /// holding a float (this library never produces one) or on an encoding
    /// too large for the machine; otherwise decoding the ciphertext with
    /// `unpack` gives the value back — the crypto round trip — for any
    /// value within the decoder's nesting budget.
    pub fn pack(&self, v: &MsgVal) -> (r: Result<Vec<u8>, AppError>)
        requires
            self.wf(),
        ensures
            match r {
                Ok(ct) => {
                    &&& ct@ == spec_pack_bytes(
                        self.spec_key(),
                        self.spec_iv(),
                        msgpack_bytes_of(v@),
                    )
                    &&& ct@.len() == spec_pkcs7_pad(msgpack_bytes_of(v@)).len()
                    &&& ct@.len() % 16 == 0 && ct@.len() > 0
                    &&& mmodel_depth(v@) <= 500 ==> spec_unpack_model(
                        self.spec_key(),
                        self.spec_iv(),
                        ct@,
                    ) == Some(v@)
                },
                Err(e) => mmodel_has_float(v@) || msgpack_bytes_of(v@).len() + 16 > usize::MAX,
            },
    {
        let encoded = match msgpack_encode(v) {
            Some(b) => b,
            None => {
                return Err(AppError::ParseError("MsgPack encode error".to_owned()));
            }
        };
        if encoded.len() > usize::MAX - 16 {
            return Err(AppError::CryptoError("Content too large".to_owned()));
        }
        let padded = pkcs7_pad(encoded.as_slice());
        let ct = aes128_cbc_encrypt(self.key.as_slice(), self.iv.as_slice(), padded.as_slice());
        proof {
            lemma_pkcs7_roundtrip(encoded@);
        }
        Ok(ct)
    }

    /// Decrypt and un-pad a ciphertext, returning the MessagePack bytes.
    /// `CryptoError` exactly when the length is not a positive multiple of
    /// 16 or the padding is invalid.
    pub fn unpack_bytes(&self, data: &[u8]) -> (r: Result<Vec<u8>, AppError>)
        requires
            self.wf(),
        ensures
            match r {
                Ok(pt) => spec_unpack_bytes(self.spec_key(), self.spec_iv(), data@) == Some(pt@),
                Err(e) => spec_unpack_bytes(self.spec_key(), self.spec_iv(), data@) is None && (
                e is CryptoError),
            },
    {
        if data.len() == 0 {
            return Err(AppError::CryptoError("Content cannot be empty".to_owned()));
        }
        if data.len() % 16 != 0 {
            return Err(
                AppError::CryptoError(
                    "Content length is not a multiple of AES block size".to_owned(),
                ),
            );
        }
        let decrypted = match aes128_cbc_decrypt(
            self.key.as_slice(),
            self.iv.as_slice(),
            data,
        ) {
            Some(pt) => pt,
            None => {
                return Err(AppError::CryptoError("Decryption failed".to_owned()));
            }
        };
        match pkcs7_unpad(decrypted.as_slice()) {
            Some(pt) => Ok(pt),
            None => Err(AppError::CryptoError("Invalid PKCS7 padding".to_owned())),
        }
    }

    /// Decrypt, un-pad and MessagePack-decode a ciphertext. `CryptoError`
    /// on framing problems (length, padding), `ParseError` when the
    /// plaintext is not MessagePack.
    pub fn unpack(&self, data: &[u8]) -> (r: Result<MsgVal, AppError>)
        requires
            self.wf(),
        ensures
            match r {
                Ok(v) => spec_unpack_model(self.spec_key(), self.spec_iv(), data@) == Some(v@),
                Err(e) => {
                    &&& spec_unpack_model(self.spec_key(), self.spec_iv(), data@) is None
                    &&& if spec_unpack_bytes(self.spec_key(), self.spec_iv(), data@) is None {
                        e is CryptoError
                    } else {
                        e is ParseError
                    }
                },
            },
    {
        let pt = match self.unpack_bytes(data) {
            Ok(pt) => pt,
            Err(e) => {
                return Err(e);
            }
        };
        match msgpack_decode(pt.as_slice()) {
            Some(v) => Ok(v),
            None => Err(AppError::ParseError("MsgPack decode error".to_owned())),
        }
    }

    /// Decrypt and decode into a JSON-shaped value, preserving map order.
    /// `CryptoError` on framing problems, `ParseError` when the plaintext
    /// is not MessagePack, and `CryptoError("Invalid float")` on a
    /// non-finite float in the payload.
    pub fn unpack_value(&self, data: &[u8]) -> (r: Result<JsonVal, AppError>)
        requires
            self.wf(),
        ensures
            match r {
                Ok(jv) => spec_unpack_json(self.spec_key(), self.spec_iv(), data@) == Some(jv@),
                Err(e) => {
                    &&& spec_unpack_json(self.spec_key(), self.spec_iv(), data@) is None
                    &&& if spec_unpack_bytes(self.spec_key(), self.spec_iv(), data@) is None {
                        e is CryptoError
                    } else if spec_unpack_model(self.spec_key(), self.spec_iv(), data@) is None {
                        e is ParseError
                    } else {
                        e is CryptoError && e->CryptoError_0@ == "Invalid float"@
                    }
                },
            },
    {
        let v = match self.unpack(data) {
            Ok(v) => v,
            Err(e) => {
                return Err(e);
            }
        };
        mval_to_json(&v)
    }

    /// Decrypt and decode into an ordered string-keyed map: the top-level
    /// MessagePack value must be a map, else
    /// `CryptoError("Expected object at top level")`; otherwise the errors
    /// of `unpack_value` carry through.
    pub fn unpack_ordered(&self, data: &[u8]) -> (r: Result<JsonMap, AppError>)
        requires
            self.wf(),
        ensures
            match r {
                Ok(m) => spec_unpack_json(self.spec_key(), self.spec_iv(), data@) == Some(
                    JModel::Obj(m@),
                ),
                Err(e) => match spec_unpack_json(self.spec_key(), self.spec_iv(), data@) {
                    Some(jm) => {
                        &&& !(jm is Obj)
                        &&& e is CryptoError
                        &&& e->CryptoError_0@ == "Expected object at top level"@
                    },
                    None => {
                        &&& if spec_unpack_bytes(self.spec_key(), self.spec_iv(), data@)
                            is None {
                            e is CryptoError
                        } else if spec_unpack_model(
                            self.spec_key(),
                            self.spec_iv(),
                            data@,
                        ) is None {
                            e is ParseError
                        } else {
                            e is CryptoError && e->CryptoError_0@ == "Invalid float"@
                        }
                    },
                },
            },
    {
        let v = match self.unpack_value(data) {
            Ok(v) => v,
            Err(e) => {
                return Err(e);
            }
        };
        match v {
            JsonVal::Obj(m) => Ok(m),
            _ => Err(AppError::CryptoError("Expected object at top level".to_owned())),
        }
    }
}

/// Decimal digits of `n`: matches `spec_dec_u`, and every byte is an
/// ASCII digit.
fn u64_to_dec(n: u64) -> (r: Vec<u8>)
    ensures
        r@ == spec_dec_u(n as nat),
        forall|i: int| 0 <= i < r@.len() ==> 48 <= #[trigger] r@[i] <= 57,
    decreases n,
{
    if n < 10 {
        let mut v: Vec<u8> = Vec::new();
        v.push(48 + n as u8);
        proof {
            assert(v@ =~= spec_dec_u(n as nat));
        }
        v
    } else {
        let mut r = u64_to_dec(n / 10);
        r.push(48 + (n % 10) as u8);
        r
    }
}

/// Decimal form of `n`, with a leading minus sign when negative.
fn i64_to_dec(n: i64) -> (r: Vec<u8>)
    ensures
        r@ == spec_dec_i(n as int),
        forall|i: int| 0 <= i < r@.len() ==> 45 <= #[trigger] r@[i] <= 57,
{
    if n >= 0 {
        u64_to_dec(n as u64)
    } else {
        let mag: u64 = ((-(n + 1)) as u64) + 1;
        proof {
            assert(mag as int == -(n as int));
        }
        let mut r: Vec<u8> = Vec::new();
        r.push(45);
        let mut digits = u64_to_dec(mag);
        r.append(&mut digits);
        proof {
            assert(r@ =~= spec_dec_i(n as int));
        }
        r
    }
}

/// The decimal string of a signed integer.
pub fn int_key_string(n: i64) -> (r: String)
    ensures
        r@ == bytes_to_chars(spec_dec_i(n as int)),
{
    let d = i64_to_dec(n);
    let s = ascii_to_string(d);
    proof {
        assert(s@ =~= bytes_to_chars(spec_dec_i(n as int)));
    }
    s
}

/// The decimal string of an unsigned integer.
pub fn uint_key_string(n: u64) -> (r: String)
    ensures
        r@ == bytes_to_chars(spec_dec_u(n as nat)),
{
    let d = u64_to_dec(n);
    let s = ascii_to_string(d);
    proof {
        assert(s@ =~= bytes_to_chars(spec_dec_u(n as nat)));
    }
    s
}

/// The base64 string a binary payload becomes in decoded output.
fn b64_string(b: &[u8]) -> (r: String)
    ensures
        r@ == bytes_to_chars(b64_std_of(b@)),
{
    let e = b64_encode_std(b);
    let s = ascii_to_string(e);
    proof {
        assert(s@ =~= bytes_to_chars(b64_std_of(b@)));
    }
    s
}

/// Convert a decoded MessagePack value into a JSON value, preserving map
/// order: the executable form of `json_of_mmodel`. Fails with
/// `CryptoError` exactly on a non-finite float.
pub fn mval_to_json(v: &MsgVal) -> (r: Result<JsonVal, AppError>)
    ensures
        match r {
            Ok(jv) => json_of_mmodel(v@) == Some(jv@),
            Err(e) => {
                &&& json_of_mmodel(v@) is None
                &&& e is CryptoError
                &&& e->CryptoError_0@ == "Invalid float"@
            },
        },
    decreases v,
{
    match v {
        MsgVal::Null => Ok(JsonVal::Null),
        MsgVal::Bool(b) => Ok(JsonVal::Bool(*b)),
        MsgVal::Int(n) => Ok(JsonVal::Int(*n)),
        MsgVal::UInt(n) => Ok(JsonVal::UInt(*n)),
        MsgVal::F32(b) => {
            if (*b >> 23) & 0xff != 0xff {
                Ok(JsonVal::F32(*b))
            } else {
                Err(AppError::CryptoError("Invalid float".to_owned()))
            }
        }
        MsgVal::F64(b) => {
            if (*b >> 52) & 0x7ff != 0x7ff {
                Ok(JsonVal::F64(*b))
            } else {
                Err(AppError::CryptoError("Invalid float".to_owned()))
            }
        }
        MsgVal::Str(s) => Ok(JsonVal::Str(s.clone())),
        MsgVal::Bin(b) => Ok(JsonVal::Str(b64_string(b.as_slice()))),
        MsgVal::Ext(_, d) => Ok(JsonVal::Str(b64_string(d.as_slice()))),
        MsgVal::Arr(items) => {
            let ghost m_items = v@->Arr_0;
            let mut out: Vec<JsonVal> = Vec::new();
            let n = items.len();
            let mut j: usize = 0;
            proof {
                assert(*v == MsgVal::Arr(*items));
                assert(v@ == MModel::Arr(m_items));
                assert(m_items.len() == items@.len());
                assert(forall|i: int|
                    0 <= i < items@.len() ==> m_items[i] == items@[i].model());
            }
            while j < n
                invariant
                    j <= n,
                    n == items@.len(),
                    v@ == MModel::Arr(m_items),
                    *v == MsgVal::Arr(*items),
                    m_items.len() == items@.len(),
                    forall|i: int| 0 <= i < items@.len() ==> m_items[i] == items@[i].model(),
                    json_of_mseq(m_items.take(j as int)) == Some(models_of_jvals(out@)),
                    out@.len() == j,
                decreases n - j,
            {
                proof {
                    assert(decreases_to!(*v => (*v)->Arr_0));
                    assert((*v)->Arr_0 == *items);
                    assert(decreases_to!(*items => items@));
                    assert(decreases_to!(items@ => items@[j as int]));
                }
                match mval_to_json(&items[j]) {
                    Ok(jv) => {
                        let ghost prev = out@;
                        out.push(jv);
                        proof {
                            assert(m_items.take(j + 1).drop_last() =~= m_items.take(j as int));
                            assert(m_items.take(j + 1).last() == items@[j as int].model());
                            assert(models_of_jvals(out@) =~= models_of_jvals(prev).push(jv@));
                        }
                    }
                    Err(e) => {
                        proof {
                            lemma_mseq_none(m_items, j as int);
                        }
                        return Err(e);
                    }
                }
                j += 1;
            }
            let res = JsonVal::Arr(out);
            proof {
                assert(m_items.take(n as int) =~= m_items);
                assert(res@->Arr_0 =~= models_of_jvals(res->Arr_0@));
            }
            Ok(res)
        }
        MsgVal::MapV(pairs) => {
            let ghost m_pairs = v@->MapM_0;
            let mut out = JsonMap::new();
            let n = pairs.len();
            let mut j: usize = 0;
            proof {
                assert(*v == MsgVal::MapV(*pairs));
                assert(v@ == MModel::MapM(m_pairs));
                assert(m_pairs.len() == pairs@.len());
                assert(forall|i: int|
                    0 <= i < pairs@.len() ==> m_pairs[i] == (
                        pairs@[i].0.model(),
                        pairs@[i].1.model(),
                    ));
            }
            while j < n
                invariant
                    j <= n,
                    n == pairs@.len(),
                    v@ == MModel::MapM(m_pairs),
                    *v == MsgVal::MapV(*pairs),
                    m_pairs.len() == pairs@.len(),
                    forall|i: int|
                        0 <= i < pairs@.len() ==> m_pairs[i] == (
                            pairs@[i].0.model(),
                            pairs@[i].1.model(),
                        ),
                    json_of_mpairs(m_pairs.take(j as int)) == Some(out@),
                decreases n - j,
            {
                proof {
                    assert(m_pairs.take(j + 1).drop_last() =~= m_pairs.take(j as int));
                    assert(m_pairs.take(j + 1).last() == m_pairs[j as int]);
                }
                let key: Option<String> = match &pairs[j].0 {
                    MsgVal::Str(s) => Some(s.clone()),
                    MsgVal::Int(n) => Some(int_key_string(*n)),
                    MsgVal::UInt(n) => Some(uint_key_string(*n)),
                    _ => None,
                };
                match key {
                    Some(k) => {
                        proof {
                            assert(spec_key_chars(m_pairs[j as int].0) == Some(k@));
                            assert(decreases_to!(*v => (*v)->MapV_0));
                            assert((*v)->MapV_0 == *pairs);
                            assert(decreases_to!(*pairs => pairs@));
                            assert(decreases_to!(pairs@ => pairs@[j as int]));
                            assert(decreases_to!(pairs@[j as int] => pairs@[j as int].1));
                        }
                        match mval_to_json(&pairs[j].1) {
                            Ok(jv) => {
                                out.insert(k, jv);
                            }
                            Err(e) => {
                                proof {
                                    lemma_mpairs_none(m_pairs, j as int);
                                }
                                return Err(e);
                            }
                        }
                    }
                    None => {
                        proof {
                            assert(spec_key_chars(m_pairs[j as int].0) is None);
                        }
                    }
                }
                j += 1;
            }
            let res = JsonVal::Obj(out);
            proof {
                assert(m_pairs.take(n as int) =~= m_pairs);
                assert(res@->Obj_0 =~= out@);
            }
            Ok(res)
        }
    }
}

} // verus!
