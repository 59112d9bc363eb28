//! User-identity extraction from credential tokens: three-segment
//! dot-delimited tokens whose middle segment is base64-wrapped JSON, and
//! the Nuverse variant wrapped in one more base64 layer.

use vstd::prelude::*;

use crate::errors::AppError;
use crate::trusted::{
    b64_decode_std, b64_decode_url_nopad, b64_std_decode_of, b64_url_decode_of, json_decode,
    json_model_of, utf8_to_string,
};
use crate::value::{obj_get, JModel};
use vstd::string::StringSliceAdditionalSpecFns;

verus! {

/// Index of the first `.` byte, or `-1` if none.
pub open spec fn first_dot_b(s: Seq<u8>) -> int
    decreases s.len(),
{
    if s.len() == 0 {
        -1
    } else if s[0] == 46 {
        0
    } else {
        let r = first_dot_b(s.skip(1));
        if r < 0 {
            -1
        } else {
            r + 1
        }
    }
}

/// `first_dot_b` finds the first dot byte, with none before it.
pub proof fn lemma_first_dot_b(s: Seq<u8>)
    ensures
        first_dot_b(s) >= 0 ==> {
            &&& first_dot_b(s) < s.len()
            &&& s[first_dot_b(s)] == 46
            &&& forall|j: int| 0 <= j < first_dot_b(s) ==> s[j] != 46
        },
        first_dot_b(s) == -1 ==> forall|j: int| 0 <= j < s.len() ==> s[j] != 46,
        first_dot_b(s) >= -1,
    decreases s.len(),
{
    if s.len() > 0 && s[0] != 46 {
        lemma_first_dot_b(s.skip(1));
        assert(forall|j: int| 0 < j < s.len() ==> s.skip(1)[j - 1] == s[j]);
    }
}

/// The segments of a byte string split on `.`.
pub open spec fn split_dots_b(s: Seq<u8>) -> Seq<Seq<u8>>
    decreases s.len(),
{
    let i = first_dot_b(s);
    if i < 0 {
        seq![s]
    } else if i < s.len() {
        seq![s.take(i)] + split_dots_b(s.skip(i + 1))
    } else {
        seq![s]
    }
}

/// Split a byte string on `.` bytes.
#[verifier::loop_isolation(false)]
fn split_bytes(s: &[u8]) -> (r: Vec<Vec<u8>>)
    ensures
        r@.len() == split_dots_b(s@).len(),
        forall|i: int| 0 <= i < r@.len() ==> #[trigger] r@[i]@ == split_dots_b(s@)[i],
    decreases s@.len(),
{
    proof {
        lemma_first_dot_b(s@);
    }
    let n = s.len();
    let mut i: usize = 0;
    while i < n && s[i] != 46
        invariant
            i <= n,
            forall|j: int| 0 <= j < i ==> s@[j] != 46,
        decreases n - i,
    {
        i += 1;
    }
    if i < n {
        let d = i;
        proof {
            assert(s@[d as int] == 46);
            assert(first_dot_b(s@) == d as int) by {
                if first_dot_b(s@) < d as int && first_dot_b(s@) >= 0 {
                    assert(s@[first_dot_b(s@)] == 46);
                }
                if first_dot_b(s@) == -1 {
                    assert(s@[d as int] != 46);
                }
                if first_dot_b(s@) > d as int {
                    assert(s@[d as int] != 46);
                }
            }
        }
        let mut head: Vec<u8> = Vec::new();
        let mut j: usize = 0;
        while j < d
            invariant
                j <= d,
                head@ =~= s@.take(j as int),
            decreases d - j,
        {
            head.push(s[j]);
            proof {
                assert(head@ =~= s@.take(j + 1));
            }
            j += 1;
        }
        let rest_slice = &s[d + 1..s.len()];
        proof {
            assert(rest_slice@ =~= s@.skip(d + 1));
        }
        let mut rest = split_bytes(rest_slice);
        let mut out: Vec<Vec<u8>> = Vec::new();
        out.push(head);
        let mut k: usize = 0;
        while k < rest.len()
            invariant
                k <= rest@.len(),
                out@.len() == k + 1,
                out@[0]@ == s@.take(d as int),
                forall|u: int| 0 <= u < k ==> #[trigger] out@[u + 1]@ == split_dots_b(
                    s@.skip(d + 1),
                )[u],
            decreases rest@.len() - k,
        {
            let mut seg: Vec<u8> = Vec::new();
            let src = &rest[k];
            let mut w: usize = 0;
            while w < src.len()
                invariant
                    w <= src@.len(),
                    seg@ =~= src@.take(w as int),
                decreases src@.len() - w,
            {
                seg.push(src[w]);
                proof {
                    assert(seg@ =~= src@.take(w + 1));
                }
                w += 1;
            }
            proof {
                assert(seg@ =~= src@);
            }
            out.push(seg);
            k += 1;
        }
        proof {
            let full = split_dots_b(s@);
            assert(full == seq![s@.take(d as int)] + split_dots_b(s@.skip(d + 1)));
            assert forall|u: int| 0 <= u < out@.len() implies #[trigger] out@[u]@ == full[u] by {
                if u >= 1 {
                    assert(out@[(u - 1) + 1]@ == split_dots_b(s@.skip(d + 1))[u - 1]);
                }
            }
        }
        out
    } else {
        let mut whole: Vec<u8> = Vec::new();
        let mut j: usize = 0;
        while j < s.len()
            invariant
                j <= s@.len(),
                whole@ =~= s@.take(j as int),
            decreases s@.len() - j,
        {
            whole.push(s[j]);
            proof {
                assert(whole@ =~= s@.take(j + 1));
            }
            j += 1;
        }
        proof {
            assert(whole@ =~= s@);
            if first_dot_b(s@) >= 0 {
                assert(s@[first_dot_b(s@)] == 46);
            }
            assert(split_dots_b(s@) == seq![s@]);
        }
        let mut out: Vec<Vec<u8>> = Vec::new();
        out.push(whole);
        out
    }
}

/// Base64 decoding with the URL-safe unpadded alphabet first and the
/// standard padded one as fallback: how token payload segments decode.
pub open spec fn b64_flex_url_first(b: Seq<u8>) -> Option<Seq<u8>> {
    match b64_url_decode_of(b) {
        Some(x) => Some(x),
        None => b64_std_decode_of(b),
    }
}

/// Base64 decoding with the standard alphabet first and the URL-safe one
/// as fallback: how the outer Nuverse wrapping decodes.
pub open spec fn b64_flex_std_first(b: Seq<u8>) -> Option<Seq<u8>> {
    match b64_std_decode_of(b) {
        Some(x) => Some(x),
        None => b64_url_decode_of(b),
    }
}

/// The string field of a parsed payload under the primary key, falling
/// back to the secondary; `None` when absent or not a string.
pub open spec fn spec_uid_field(m: JModel, k1: Seq<char>, k2: Seq<char>) -> Option<Seq<char>> {
    match m {
        JModel::Obj(o) => match obj_get(o, k1) {
            Some(v) => if v is Str {
                Some(v->Str_0)
            } else {
                None
            },
            None => match obj_get(o, k2) {
                Some(v) => if v is Str {
                    Some(v->Str_0)
                } else {
                    None
                },
                None => None,
            },
        },
        _ => None,
    }
}

/// The user id a JWT-style token yields: three dot-separated segments,
/// the middle one base64 (URL-safe first) wrapping JSON with a
/// `userId`/`user_id` string field.
pub open spec fn spec_extract_jwt(tb: Seq<u8>) -> Option<Seq<char>> {
    let parts = split_dots_b(tb);
    if parts.len() != 3 {
        None
    } else {
        match b64_flex_url_first(parts[1]) {
            Some(pb) => match json_model_of(pb) {
                Some(m) => spec_uid_field(m, "userId"@, "user_id"@),
                None => None,
            },
            None => None,
        }
    }
}

/// The user id a Nuverse access token yields: the token is itself base64
/// (standard first) around a JWT-style token whose payload carries
/// `sdk_open_id`.
pub open spec fn spec_extract_nuverse(tb: Seq<u8>) -> Option<Seq<char>> {
    match b64_flex_std_first(tb) {
        Some(inner) => if vstd::utf8::valid_utf8(inner) {
            let parts = split_dots_b(inner);
            if parts.len() != 3 {
                None
            } else {
                match b64_flex_url_first(parts[1]) {
                    Some(pb) => match json_model_of(pb) {
                        Some(m) => spec_uid_field(m, "sdk_open_id"@, "sdk_open_id"@),
                        None => None,
                    },
                    None => None,
                }
            }
        } else {
            None
        },
        None => None,
    }
}

/// Decode one payload segment: URL-safe unpadded base64 first, standard
/// padded as fallback.
fn decode_segment(seg: &[u8]) -> (r: Option<Vec<u8>>)
    ensures
        match r {
            Some(v) => b64_flex_url_first(seg@) == Some(v@),
            None => b64_flex_url_first(seg@) is None,
        },
{
    match b64_decode_url_nopad(seg) {
        Some(v) => Some(v),
        None => b64_decode_std(seg),
    }
}

/// Extract the user id from the payload bytes of a token's middle
/// segment.
fn uid_from_payload(pb: &[u8], k1: &str, k2: &str) -> (r: Option<String>)
    ensures
        match r {
            Some(u) => match json_model_of(pb@) {
                Some(m) => spec_uid_field(m, k1@, k2@) == Some(u@),
                None => false,
            },
            None => match json_model_of(pb@) {
                Some(m) => spec_uid_field(m, k1@, k2@) is None,
                None => true,
            },
        },
{
    let jv = match json_decode(pb) {
        Some(v) => v,
        None => {
            return None;
        }
    };
    let o = match jv.as_object() {
        Some(o) => o,
        None => {
            return None;
        }
    };
    match o.get(k1) {
        Some(v) => match v.as_str() {
            Some(s) => Some(s.clone()),
            None => None,
        },
        None => match o.get(k2) {
            Some(v) => match v.as_str() {
                Some(s) => Some(s.clone()),
                None => None,
            },
            None => None,
        },
    }
}

/// Read the user id out of a JWT-style credential: split on `.` into
/// exactly three segments, base64-decode the middle one (URL-safe first,
/// standard as fallback), and take the `userId`/`user_id` string field of
/// the JSON payload. Every failure is a `ParseError`.
pub fn extract_user_id_from_jwt(token: &str) -> (r: Result<String, AppError>)
    ensures
        match r {
            Ok(u) => spec_extract_jwt(token.spec_bytes()) == Some(u@),
            Err(e) => spec_extract_jwt(token.spec_bytes()) is None && e is ParseError,
        },
{
    let tb = token.as_bytes();
    let parts = split_bytes(tb);
    if parts.len() != 3 {
        return Err(AppError::ParseError("Invalid JWT format".to_owned()));
    }
    let pb = match decode_segment(parts[1].as_slice()) {
        Some(v) => v,
        None => {
            return Err(AppError::ParseError("JWT base64 decode error".to_owned()));
        }
    };
    match uid_from_payload(pb.as_slice(), "userId", "user_id") {
        Some(u) => Ok(u),
        None => Err(AppError::ParseError("userId not found in JWT".to_owned())),
    }
}

/// Read the user id out of a Nuverse access token: strip the outer base64
/// layer (standard first, URL-safe as fallback), require the inner bytes
/// to be UTF-8, then read the inner token like a JWT but for its
/// `sdk_open_id` field. Every failure is a `ParseError`.
pub fn extract_user_id_from_nuverse_token(token: &str) -> (r: Result<String, AppError>)
    ensures
        match r {
            Ok(u) => spec_extract_nuverse(token.spec_bytes()) == Some(u@),
            Err(e) => spec_extract_nuverse(token.spec_bytes()) is None && e is ParseError,
        },
{
    let tb = token.as_bytes();
    let inner = match b64_decode_std(tb) {
        Some(v) => Some(v),
        None => b64_decode_url_nopad(tb),
    };
    let inner = match inner {
        Some(v) => v,
        None => {
            return Err(AppError::ParseError("Nuverse token base64 decode error".to_owned()));
        }
    };
    let ghost ginner = inner@;
    let inner_str = match utf8_to_string(inner) {
        Some(s) => s,
        None => {
            return Err(AppError::ParseError("Nuverse token UTF-8 error".to_owned()));
        }
    };
    let ib = inner_str.as_str().as_bytes();
    proof {
        assert(ib@ == ginner);
    }
    let parts = split_bytes(ib);
    if parts.len() != 3 {
        return Err(AppError::ParseError("Invalid Nuverse JWT format".to_owned()));
    }
    let pb = match decode_segment(parts[1].as_slice()) {
        Some(v) => v,
        None => {
            return Err(AppError::ParseError("Nuverse JWT payload decode error".to_owned()));
        }
    };
    match uid_from_payload(pb.as_slice(), "sdk_open_id", "sdk_open_id") {
        Some(u) => Ok(u),
        None => Err(AppError::ParseError("sdk_open_id not found in token".to_owned())),
    }
}

} // verus!
