//! The request/response protocol of the regional engine: the header book,
//! request-URL construction, the classification of upstream responses,
//! and the bounded retry/recovery loop of the high-level game call.

use vstd::prelude::*;

use crate::codec::{spec_unpack_json, SekaiCryptor};
use crate::errors::{AppError, SekaiHttpStatus};
use crate::ops::ascii_lower;
use crate::trusted::{
    b64_decode_std, b64_std_decode_of, chars_to_string, str_chars, utf8_lossy, utf8_lossy_of,
    utf8_to_string,
};
use crate::value::{obj_get, JModel, JsonMap};
use vstd::string::StringSliceAdditionalSpecFns;

verus! {

/// Whether `n` occurs in `h` starting at `i`.
pub open spec fn match_at(h: Seq<u8>, n: Seq<u8>, i: int) -> bool {
    0 <= i && i + n.len() <= h.len() && h.subrange(i, i + n.len()) == n
}

/// Whether `n` occurs anywhere in `h`.
pub open spec fn spec_contains_sub(h: Seq<u8>, n: Seq<u8>) -> bool {
    exists|i: int| match_at(h, n, i)
}

/// Whether the needle occurs in the haystack.
#[verifier::loop_isolation(false)]
pub fn contains_sub(h: &[u8], n: &[u8]) -> (r: bool)
    ensures
        r == spec_contains_sub(h@, n@),
{
    if n.len() == 0 {
        proof {
            assert(h@.subrange(0, 0) =~= n@);
            assert(match_at(h@, n@, 0));
        }
        return true;
    }
    if n.len() > h.len() {
        proof {
            assert(forall|i: int| !match_at(h@, n@, i));
        }
        return false;
    }
    let last_start = h.len() - n.len();
    let mut i: usize = 0;
    while i <= last_start
        invariant
            i <= last_start + 1,
            forall|j: int| 0 <= j < i ==> !match_at(h@, n@, j),
        decreases last_start - i + 1,
    {
        let mut k: usize = 0;
        let mut all = true;
        while k < n.len() && all
            invariant
                k <= n@.len(),
                i + n@.len() <= h@.len(),
                all ==> forall|t: int| 0 <= t < k ==> h@[i + t] == n@[t],
                !all ==> !match_at(h@, n@, i as int),
            decreases n@.len() - k + if all {
                1int
            } else {
                0int
            },
        {
            if h[i + k] != n[k] {
                proof {
                    assert(h@.subrange(i as int, i + n@.len())[k as int] == h@[i + k]);
                }
                all = false;
            } else {
                k += 1;
            }
        }
        if all {
            proof {
                assert(h@.subrange(i as int, i + n@.len()) =~= n@);
                assert(match_at(h@, n@, i as int));
            }
            return true;
        }
        i += 1;
    }
    proof {
        assert(forall|j: int| !match_at(h@, n@, j));
    }
    false
}

/// Index of the leftmost occurrence of `n` in `h`, or `-1`.
pub open spec fn first_match(h: Seq<u8>, n: Seq<u8>) -> int
    decreases h.len(),
{
    if match_at(h, n, 0) {
        0
    } else if h.len() == 0 {
        -1
    } else {
        let r = first_match(h.skip(1), n);
        if r < 0 {
            -1
        } else {
            r + 1
        }
    }
}

/// `first_match` finds the leftmost occurrence.
pub proof fn lemma_first_match(h: Seq<u8>, n: Seq<u8>)
    ensures
        first_match(h, n) >= 0 ==> {
            &&& match_at(h, n, first_match(h, n))
            &&& forall|j: int| 0 <= j < first_match(h, n) ==> !match_at(h, n, j)
        },
        first_match(h, n) == -1 ==> forall|j: int| !match_at(h, n, j),
        first_match(h, n) >= -1,
    decreases h.len(),
{
    if !match_at(h, n, 0) && h.len() > 0 {
        lemma_first_match(h.skip(1), n);
        assert forall|j: int| 0 <= j && match_at(h, n, j) && j > 0 implies match_at(
            h.skip(1),
            n,
            j - 1,
        ) by {
            assert(h.skip(1).subrange(j - 1, j - 1 + n.len()) =~= h.subrange(j, j + n.len()));
        }
        assert forall|j: int| 0 <= j && match_at(h.skip(1), n, j) implies match_at(
            h,
            n,
            j + 1,
        ) by {
            assert(h.subrange(j + 1, j + 1 + n.len()) =~= h.skip(1).subrange(j, j + n.len()));
        }
    }
}

/// `h` with every occurrence of `pat` replaced by `rep`, scanning left to
/// right without rescanning what was inserted.
pub open spec fn spec_replace(h: Seq<u8>, pat: Seq<u8>, rep: Seq<u8>) -> Seq<u8>
    decreases h.len(),
{
    if pat.len() == 0 {
        h
    } else {
        let i = first_match(h, pat);
        if i < 0 {
            h
        } else if i + pat.len() <= h.len() {
            h.take(i) + rep + spec_replace(h.skip(i + pat.len()), pat, rep)
        } else {
            h
        }
    }
}

/// Find the leftmost occurrence of the needle.
#[verifier::loop_isolation(false)]
fn find_sub(h: &[u8], n: &[u8]) -> (r: Option<usize>)
    ensures
        match r {
            Some(i) => first_match(h@, n@) == i as int,
            None => first_match(h@, n@) == -1,
        },
{
    proof {
        lemma_first_match(h@, n@);
    }
    if n.len() == 0 {
        proof {
            assert(h@.subrange(0, 0) =~= n@);
            assert(match_at(h@, n@, 0));
        }
        return Some(0);
    }
    if n.len() > h.len() {
        proof {
            if first_match(h@, n@) >= 0 {
                assert(match_at(h@, n@, first_match(h@, n@)));
            }
        }
        return None;
    }
    let last_start = h.len() - n.len();
    let mut i: usize = 0;
    while i <= last_start
        invariant
            i <= last_start + 1,
            forall|j: int| 0 <= j < i ==> !match_at(h@, n@, j),
        decreases last_start - i + 1,
    {
        let mut k: usize = 0;
        let mut all = true;
        while k < n.len() && all
            invariant
                k <= n@.len(),
                i + n@.len() <= h@.len(),
                all ==> forall|t: int| 0 <= t < k ==> h@[i + t] == n@[t],
                !all ==> !match_at(h@, n@, i as int),
            decreases n@.len() - k + if all {
                1int
            } else {
                0int
            },
        {
            if h[i + k] != n[k] {
                proof {
                    assert(h@.subrange(i as int, i + n@.len())[k as int] == h@[i + k]);
                }
                all = false;
            } else {
                k += 1;
            }
        }
        if all {
            proof {
                assert(h@.subrange(i as int, i + n@.len()) =~= n@);
                assert(match_at(h@, n@, i as int));
                if first_match(h@, n@) >= 0 && first_match(h@, n@) < i as int {
                    assert(!match_at(h@, n@, first_match(h@, n@)));
                }
            }
            return Some(i);
        }
        i += 1;
    }
    proof {
        if first_match(h@, n@) >= 0 {
            assert(match_at(h@, n@, first_match(h@, n@)));
        }
    }
    None
}

/// Replace every occurrence of the pattern, left to right.
#[verifier::loop_isolation(false)]
pub fn replace_bytes(h: &[u8], pat: &[u8], rep: &[u8]) -> (r: Vec<u8>)
    requires
        pat@.len() > 0,
    ensures
        r@ == spec_replace(h@, pat@, rep@),
    decreases h@.len(),
{
    proof {
        lemma_first_match(h@, pat@);
    }
    match find_sub(h, pat) {
        None => {
            let mut out: Vec<u8> = Vec::new();
            out.extend_from_slice(h);
            out
        }
        Some(i) => {
            let hlen = h.len();
            proof {
                assert(match_at(h@, pat@, i as int));
                assert(i + pat@.len() <= hlen);
            }
            let mut out: Vec<u8> = Vec::new();
            let head = &h[0..i];
            out.extend_from_slice(head);
            out.extend_from_slice(rep);
            let tail = &h[i + pat.len()..hlen];
            proof {
                assert(tail@ =~= h@.skip(i + pat@.len()));
            }
            let mut rest = replace_bytes(tail, pat, rep);
            out.append(&mut rest);
            proof {
                assert(head@ =~= h@.take(i as int));
                assert(out@ =~= spec_replace(h@, pat@, rep@));
            }
            out
        }
    }
}

/// The bytes of the upstream URL of one API call: the configured base,
/// `/api`, the path, with every `{userId}` replaced by the session's id.
pub open spec fn spec_api_url(api_url: Seq<u8>, path: Seq<u8>, user_id: Seq<u8>) -> Seq<u8> {
    spec_replace(api_url + "/api".spec_bytes() + path, "{userId}".spec_bytes(), user_id)
}

/// Build the URL of one API call; `None` only if the substitution produced
/// invalid UTF-8, which cannot happen for UTF-8 inputs.
pub fn build_api_url(api_url: &str, path: &str, user_id: &str) -> (r: Option<String>)
    ensures
        match r {
            Some(s) => vstd::utf8::encode_utf8(s@) == spec_api_url(
                api_url.spec_bytes(),
                path.spec_bytes(),
                user_id.spec_bytes(),
            ),
            None => !vstd::utf8::valid_utf8(
                spec_api_url(api_url.spec_bytes(), path.spec_bytes(), user_id.spec_bytes()),
            ),
        },
{
    let mut joined: Vec<u8> = Vec::new();
    joined.extend_from_slice(api_url.as_bytes());
    joined.extend_from_slice("/api".as_bytes());
    joined.extend_from_slice(path.as_bytes());
    proof {
        assert(joined@ =~= api_url.spec_bytes() + "/api".spec_bytes() + path.spec_bytes());
    }
    let pat = "{userId}".as_bytes();
    let replaced = if pat.len() > 0 {
        replace_bytes(joined.as_slice(), pat, user_id.as_bytes())
    } else {
        joined
    };
    utf8_to_string(replaced)
}

/// The header book of one region: an insertion-ordered string map seeded
/// from the region's configured headers and refreshed from the manifest.
pub struct HeaderBook {
    pub entries: Vec<(String, String)>,
}

/// The model of a header book: its key/value pairs in order.
pub open spec fn book_model(s: Seq<(String, String)>) -> Seq<(Seq<char>, Seq<char>)> {
    Seq::new(
        s.len(),
        |i: int| if 0 <= i < s.len() {
            (s[i].0@, s[i].1@)
        } else {
            (Seq::<char>::empty(), Seq::<char>::empty())
        },
    )
}

/// Index of the first header with this exact key, or `-1`.
pub open spec fn book_index_of(s: Seq<(Seq<char>, Seq<char>)>, key: Seq<char>) -> int
    decreases s.len(),
{
    if s.len() == 0 {
        -1
    } else if s[0].0 == key {
        0
    } else {
        let r = book_index_of(s.skip(1), key);
        if r < 0 {
            -1
        } else {
            r + 1
        }
    }
}

/// Ordered insertion for headers: replace in place or append.
pub open spec fn book_insert(
    s: Seq<(Seq<char>, Seq<char>)>,
    key: Seq<char>,
    v: Seq<char>,
) -> Seq<(Seq<char>, Seq<char>)> {
    if book_index_of(s, key) >= 0 {
        s.update(book_index_of(s, key), (key, v))
    } else {
        s.push((key, v))
    }
}

/// `book_index_of` finds the first matching index.
pub proof fn lemma_book_index_of(s: Seq<(Seq<char>, Seq<char>)>, key: Seq<char>)
    ensures
        book_index_of(s, key) >= 0 ==> {
            &&& book_index_of(s, key) < s.len()
            &&& s[book_index_of(s, key)].0 == key
            &&& forall|j: int| 0 <= j < book_index_of(s, key) ==> s[j].0 != key
        },
        book_index_of(s, key) == -1 ==> forall|j: int| 0 <= j < s.len() ==> s[j].0 != key,
        book_index_of(s, key) >= -1,
    decreases s.len(),
{
    if s.len() > 0 && s[0].0 != key {
        lemma_book_index_of(s.skip(1), key);
        assert(forall|j: int| 0 < j < s.len() ==> s.skip(1)[j - 1] == s[j]);
    }
}

impl HeaderBook {
    /// The book's model.
    pub open spec fn view_pairs(&self) -> Seq<(Seq<char>, Seq<char>)> {
        book_model(self.entries@)
    }

    /// An empty book.
    pub fn new() -> (r: HeaderBook)
        ensures
            r.view_pairs() =~= Seq::<(Seq<char>, Seq<char>)>::empty(),
    {
        HeaderBook { entries: Vec::new() }
    }

    /// Index of the first header with this key, if any.
    #[verifier::loop_isolation(false)]
    fn find_key(&self, key: &String) -> (r: Option<usize>)
        ensures
            match r {
                Some(i) => book_index_of(self.view_pairs(), key@) == i as int && i
                    < self.view_pairs().len(),
                None => book_index_of(self.view_pairs(), key@) == -1,
            },
    {
        proof {
            lemma_book_index_of(self.view_pairs(), key@);
        }
        let n = self.entries.len();
        let mut i: usize = 0;
        while i < n
            invariant
                i <= n,
                forall|j: int| 0 <= j < i ==> self.view_pairs()[j].0 != key@,
            decreases n - i,
        {
            if self.entries[i].0.eq(key) {
                proof {
                    assert(self.view_pairs()[i as int].0 == key@);
                    let bio = book_index_of(self.view_pairs(), key@);
                    if bio == -1 || bio < i as int || bio > i as int {
                        assert(false);
                    }
                }
                return Some(i);
            }
            proof {
                assert(self.view_pairs()[i as int].0 != key@);
            }
            i += 1;
        }
        proof {
            let bio = book_index_of(self.view_pairs(), key@);
            if bio >= 0 {
                assert(self.view_pairs()[bio].0 != key@);
                assert(false);
            }
        }
        None
    }

    /// Set one header: an existing key keeps its position.
    pub fn set(&mut self, key: String, v: String)
        ensures
            final(self).view_pairs() =~= book_insert(old(self).view_pairs(), key@, v@),
    {
        match self.find_key(&key) {
            Some(i) => {
                self.entries[i] = (key, v);
            }
            None => {
                self.entries.push((key, v));
            }
        }
    }

    /// Refresh the four version headers from the manifest, leaving every
    /// other header as it stands.
    pub fn update_version_headers(&mut self, version: &crate::version::VersionInfo)
        ensures
            final(self).view_pairs() =~= book_insert(
                book_insert(
                    book_insert(
                        book_insert(
                            old(self).view_pairs(),
                            "X-App-Version"@,
                            version.app_version@,
                        ),
                        "X-Data-Version"@,
                        version.data_version@,
                    ),
                    "X-Asset-Version"@,
                    version.asset_version@,
                ),
                "X-App-Hash"@,
                version.app_hash@,
            ),
    {
        self.set("X-App-Version".to_owned(), version.app_version.clone());
        self.set("X-Data-Version".to_owned(), version.data_version.clone());
        self.set("X-Asset-Version".to_owned(), version.asset_version.clone());
        self.set("X-App-Hash".to_owned(), version.app_hash.clone());
    }
}

/// The headers kept when a request is prepared: everything whose
/// lowercased key is not `x-request-id`.
pub open spec fn spec_kept_headers(s: Seq<(Seq<char>, Seq<char>)>) -> Seq<
    (Seq<char>, Seq<char>),
>
    decreases s,
{
    if s.len() == 0 {
        Seq::empty()
    } else {
        let rest = spec_kept_headers(s.drop_last());
        if ascii_lower(s.last().0) == "x-request-id"@ {
            rest
        } else {
            rest.push(s.last())
        }
    }
}

/// The headers of one prepared request: the book without any stored
/// `X-Request-Id`, then the session token when one exists, then the fresh
/// request id.
pub open spec fn spec_request_headers(
    book: Seq<(Seq<char>, Seq<char>)>,
    session_token: Option<Seq<char>>,
    request_id: Seq<char>,
) -> Seq<(Seq<char>, Seq<char>)> {
    let kept = spec_kept_headers(book);
    let with_token = match session_token {
        Some(t) => kept.push(("X-Session-Token"@, t)),
        None => kept,
    };
    with_token.push(("X-Request-Id"@, request_id))
}

/// Assemble the headers of one request from the book snapshot, the
/// session's token, and a fresh request id.
#[verifier::loop_isolation(false)]
pub fn build_request_headers(
    book: &HeaderBook,
    session_token: Option<&String>,
    request_id: String,
) -> (r: Vec<(String, String)>)
    ensures
        book_model(r@) =~= spec_request_headers(
            book.view_pairs(),
            match session_token {
                Some(t) => Some(t@),
                None => None,
            },
            request_id@,
        ),
{
    let ghost gb = book.view_pairs();
    let mut out: Vec<(String, String)> = Vec::new();
    let n = book.entries.len();
    let mut i: usize = 0;
    while i < n
        invariant
            i <= n,
            n == book.entries@.len(),
            book_model(out@) =~= spec_kept_headers(gb.take(i as int)),
        decreases n - i,
    {
        proof {
            assert(gb.take(i + 1).drop_last() =~= gb.take(i as int));
            assert(gb.take(i + 1).last() == gb[i as int]);
        }
        let ghost before = out@;
        let key_chars = str_chars(book.entries[i].0.as_str());
        let lowered = crate::ops::to_lower_chars(&key_chars);
        let marker = str_chars("x-request-id");
        if !crate::ops::chars_eq(&lowered, &marker) {
            out.push((book.entries[i].0.clone(), book.entries[i].1.clone()));
            proof {
                assert(book_model(out@) =~= book_model(before).push(gb[i as int]));
            }
        }
        i += 1;
    }
    proof {
        assert(gb.take(n as int) =~= gb);
    }
    match session_token {
        Some(t) => {
            let ghost before = out@;
            out.push(("X-Session-Token".to_owned(), t.clone()));
            proof {
                assert(book_model(out@) =~= book_model(before).push(("X-Session-Token"@, t@)));
            }
        }
        None => {}
    }
    let ghost before = out@;
    out.push(("X-Request-Id".to_owned(), request_id));
    proof {
        assert(book_model(out@) =~= book_model(before).push(
            ("X-Request-Id"@, out@.last().1@),
        ));
    }
    out
}

/// Assemble the headers of one request with a freshly generated request
/// id: the book snapshot without any stored `X-Request-Id`, the session
/// token when one exists, and the new id (36 characters) last.
pub fn prepare_headers(book: &HeaderBook, session_token: Option<&String>) -> (r: Vec<
    (String, String),
>)
    ensures
        exists|rid: Seq<char>|
            rid.len() == 36 && book_model(r@) == spec_request_headers(
                book.view_pairs(),
                match session_token {
                    Some(t) => Some(t@),
                    None => None,
                },
                rid,
            ),
{
    let rid = crate::trusted::fresh_request_id();
    let ghost grid = rid@;
    let r = build_request_headers(book, session_token, rid);
    proof {
        assert(grid.len() == 36 && book_model(r@) == spec_request_headers(
            book.view_pairs(),
            match session_token {
                Some(t) => Some(t@),
                None => None,
            },
            grid,
        ));
    }
    r
}

/// How one upstream response is to be handled, per its status and
/// content type.
#[derive(Debug, PartialEq, Eq, Structural)]
pub enum WireClass {
    Decode,
    SessionFailure,
    UpgradeNeeded,
    Maintenance,
    CookieFailure,
    Unrecognized,
}

/// Whether a lowercased content type announces an encrypted binary body.
pub open spec fn spec_is_binary(ct: Seq<u8>) -> bool {
    spec_contains_sub(ct, "octet-stream".spec_bytes()) || spec_contains_sub(
        ct,
        "binary".spec_bytes(),
    )
}

/// The classification of one response for a typed exchange: binary bodies
/// decode on the plain statuses and map the protocol statuses to their
/// failures; non-binary bodies recognise maintenance, a server error, and
/// an XML 403 as an expired cookie; a status outside the closed set is
/// unrecognised, binary or not.
pub open spec fn spec_classify(status: u16, ct: Seq<u8>) -> WireClass {
    if spec_is_binary(ct) {
        match SekaiHttpStatus::spec_from_code(status) {
            Some(s) => match s {
                SekaiHttpStatus::Success => WireClass::Decode,
                SekaiHttpStatus::ClientError => WireClass::Decode,
                SekaiHttpStatus::NotFound => WireClass::Decode,
                SekaiHttpStatus::Conflict => WireClass::Decode,
                SekaiHttpStatus::SessionError => WireClass::SessionFailure,
                SekaiHttpStatus::GameUpgrade => WireClass::UpgradeNeeded,
                SekaiHttpStatus::UnderMaintenance => WireClass::Maintenance,
                SekaiHttpStatus::ServerError => WireClass::Unrecognized,
            },
            None => WireClass::Unrecognized,
        }
    } else {
        match SekaiHttpStatus::spec_from_code(status) {
            Some(s) => if s is UnderMaintenance {
                WireClass::Maintenance
            } else if s is ServerError {
                WireClass::Unrecognized
            } else if s is SessionError && spec_contains_sub(ct, "xml".spec_bytes()) {
                WireClass::CookieFailure
            } else {
                WireClass::Unrecognized
            },
            None => WireClass::Unrecognized,
        }
    }
}

/// The classification for the ordered game exchange: binary bodies as in
/// the typed exchange; a non-binary body only recognises maintenance, and
/// anything else about it is unrecognised.
pub open spec fn spec_classify_ordered(status: u16, ct: Seq<u8>) -> WireClass {
    if spec_is_binary(ct) {
        spec_classify(status, ct)
    } else if status == 503 {
        WireClass::Maintenance
    } else {
        WireClass::Unrecognized
    }
}

/// Lowercase the ASCII bytes of a slice.
#[verifier::loop_isolation(false)]
fn lower_bytes(s: &[u8]) -> (r: Vec<u8>)
    ensures
        r@ =~= lower_bytes_of(s@),
{
    let mut out: Vec<u8> = Vec::new();
    let mut i: usize = 0;
    while i < s.len()
        invariant
            i <= s@.len(),
            out@.len() == i,
            forall|j: int| 0 <= j < i ==> out@[j] == lower_byte(s@[j]),
        decreases s@.len() - i,
    {
        let c = s[i];
        if 65 <= c && c <= 90 {
            out.push(c + 32);
        } else {
            out.push(c);
        }
        i += 1;
    }
    out
}

/// ASCII lowercasing of one byte.
pub open spec fn lower_byte(c: u8) -> u8 {
    if 65 <= c <= 90 {
        (c + 32) as u8
    } else {
        c
    }
}

/// ASCII lowercasing of a byte sequence.
pub open spec fn lower_bytes_of(s: Seq<u8>) -> Seq<u8> {
    Seq::new(
        s.len(),
        |i: int| if 0 <= i < s.len() {
            lower_byte(s[i])
        } else {
            32u8
        },
    )
}

/// Classify one upstream response by status and content type, for the
/// typed exchange.
pub fn classify_response(status: u16, content_type: &str) -> (r: WireClass)
    ensures
        r == spec_classify(status, lower_bytes_of(content_type.spec_bytes())),
{
    let ct = lower_bytes(content_type.as_bytes());
    let binary = contains_sub(ct.as_slice(), "octet-stream".as_bytes()) || contains_sub(
        ct.as_slice(),
        "binary".as_bytes(),
    );
    match SekaiHttpStatus::from_code(status) {
        Err(_) => WireClass::Unrecognized,
        Ok(s) => {
            if binary {
                match s {
                    SekaiHttpStatus::Success
                    | SekaiHttpStatus::ClientError
                    | SekaiHttpStatus::NotFound
                    | SekaiHttpStatus::Conflict => WireClass::Decode,
                    SekaiHttpStatus::SessionError => WireClass::SessionFailure,
                    SekaiHttpStatus::GameUpgrade => WireClass::UpgradeNeeded,
                    SekaiHttpStatus::UnderMaintenance => WireClass::Maintenance,
                    SekaiHttpStatus::ServerError => WireClass::Unrecognized,
                }
            } else {
                match s {
                    SekaiHttpStatus::UnderMaintenance => WireClass::Maintenance,
                    SekaiHttpStatus::ServerError => WireClass::Unrecognized,
                    SekaiHttpStatus::SessionError => {
                        if contains_sub(ct.as_slice(), "xml".as_bytes()) {
                            WireClass::CookieFailure
                        } else {
                            WireClass::Unrecognized
                        }
                    }
                    _ => WireClass::Unrecognized,
                }
            }
        }
    }
}

/// Classify one upstream response for the ordered game exchange.
pub fn classify_response_ordered(status: u16, content_type: &str) -> (r: WireClass)
    ensures
        r == spec_classify_ordered(status, lower_bytes_of(content_type.spec_bytes())),
{
    let ct = lower_bytes(content_type.as_bytes());
    let binary = contains_sub(ct.as_slice(), "octet-stream".as_bytes()) || contains_sub(
        ct.as_slice(),
        "binary".as_bytes(),
    );
    if binary {
        classify_response(status, content_type)
    } else if status == 503 {
        WireClass::Maintenance
    } else {
        WireClass::Unrecognized
    }
}

/// Interpret one game response: decode the encrypted ordered payload on
/// the plain statuses, otherwise surface the classified failure with the
/// response body rendered lossily where the protocol keeps it.
pub fn handle_response_ordered(
    cryptor: &SekaiCryptor,
    status: u16,
    content_type: &str,
    body: &[u8],
) -> (r: Result<JsonMap, AppError>)
    requires
        cryptor.wf(),
    ensures
        ({
            let class = spec_classify_ordered(status, lower_bytes_of(content_type.spec_bytes()));
            match r {
                Ok(m) => class == WireClass::Decode && spec_unpack_json(
                    cryptor.spec_key(),
                    cryptor.spec_iv(),
                    body@,
                ) == Some(JModel::Obj(m@)),
                Err(e) => match class {
                    WireClass::Decode => !(spec_unpack_json(
                        cryptor.spec_key(),
                        cryptor.spec_iv(),
                        body@,
                    ) matches Some(JModel::Obj(_))),
                    WireClass::SessionFailure => e == AppError::SessionError,
                    WireClass::UpgradeNeeded => e == AppError::UpgradeRequired,
                    WireClass::Maintenance => e == AppError::UnderMaintenance,
                    WireClass::CookieFailure => e == AppError::CookieExpired,
                    WireClass::Unrecognized => e matches AppError::Unknown {
                        status: st,
                        body: b,
                    } && st == status && b@ == utf8_lossy_of(body@),
                },
            }
        }),
{
    match classify_response_ordered(status, content_type) {
        WireClass::Decode => cryptor.unpack_ordered(body),
        WireClass::SessionFailure => Err(AppError::SessionError),
        WireClass::UpgradeNeeded => Err(AppError::UpgradeRequired),
        WireClass::Maintenance => Err(AppError::UnderMaintenance),
        WireClass::CookieFailure => Err(AppError::CookieExpired),
        WireClass::Unrecognized => Err(
            AppError::Unknown { status, body: utf8_lossy(body) },
        ),
    }
}

/// Interpret one typed exchange response (a login, image metadata): the
/// full classification table applies, so a non-binary 403 XML response
/// surfaces as an expired cookie; the plain statuses decode the encrypted
/// ordered payload.
pub fn handle_response(
    cryptor: &SekaiCryptor,
    status: u16,
    content_type: &str,
    body: &[u8],
) -> (r: Result<JsonMap, AppError>)
    requires
        cryptor.wf(),
    ensures
        ({
            let class = spec_classify(status, lower_bytes_of(content_type.spec_bytes()));
            match r {
                Ok(m) => class == WireClass::Decode && spec_unpack_json(
                    cryptor.spec_key(),
                    cryptor.spec_iv(),
                    body@,
                ) == Some(JModel::Obj(m@)),
                Err(e) => match class {
                    WireClass::Decode => !(spec_unpack_json(
                        cryptor.spec_key(),
                        cryptor.spec_iv(),
                        body@,
                    ) matches Some(JModel::Obj(_))),
                    WireClass::SessionFailure => e == AppError::SessionError,
                    WireClass::UpgradeNeeded => e == AppError::UpgradeRequired,
                    WireClass::Maintenance => e == AppError::UnderMaintenance,
                    WireClass::CookieFailure => e == AppError::CookieExpired,
                    WireClass::Unrecognized => e matches AppError::Unknown {
                        status: st,
                        body: b,
                    } && st == status && b@ == utf8_lossy_of(body@),
                },
            }
        }),
{
    match classify_response(status, content_type) {
        WireClass::Decode => cryptor.unpack_ordered(body),
        WireClass::SessionFailure => Err(AppError::SessionError),
        WireClass::UpgradeNeeded => Err(AppError::UpgradeRequired),
        WireClass::Maintenance => Err(AppError::UnderMaintenance),
        WireClass::CookieFailure => Err(AppError::CookieExpired),
        WireClass::Unrecognized => Err(
            AppError::Unknown { status, body: utf8_lossy(body) },
        ),
    }
}

/// The thumbnail bytes of an image-metadata response: the `thumbnail`
/// string field decoded as padded standard base64; `ParseError` exactly
/// when the field is missing, not a string, or not decodable.
pub fn extract_thumbnail(doc: &JsonMap) -> (r: Result<Vec<u8>, AppError>)
    ensures
        match r {
            Ok(b) => match obj_get(doc@, "thumbnail"@) {
                Some(v) => v is Str && b64_std_decode_of(
                    vstd::utf8::encode_utf8(v->Str_0),
                ) == Some(b@),
                None => false,
            },
            Err(e) => e is ParseError && match obj_get(doc@, "thumbnail"@) {
                Some(v) => !(v is Str) || b64_std_decode_of(
                    vstd::utf8::encode_utf8(v->Str_0),
                ) is None,
                None => true,
            },
        },
{
    let v = match doc.get("thumbnail") {
        Some(v) => v,
        None => {
            return Err(AppError::ParseError("missing thumbnail in response".to_owned()));
        }
    };
    let s = match v.as_str() {
        Some(s) => s,
        None => {
            return Err(AppError::ParseError("missing thumbnail in response".to_owned()));
        }
    };
    match b64_decode_std(s.as_str().as_bytes()) {
        Some(b) => Ok(b),
        None => Err(AppError::ParseError("failed to decode base64".to_owned())),
    }
}

/// The route and method of one login call: the CP dialect PUTs to the
/// user's own auth path with the resource-refresh flag off, the Nuverse
/// dialect POSTs to the shared auth path. The second component is true
/// for PUT.
pub fn login_route(is_cp: bool, user_id: &str) -> (r: (String, bool))
    ensures
        is_cp ==> r.0@ == "/user/"@ + user_id@ + "/auth?refreshUpdatedResources=False"@,
        !is_cp ==> r.0@ == "/user/auth"@,
        r.1 == is_cp,
{
    if is_cp {
        let mut chars = str_chars("/user/");
        let mut uid = str_chars(user_id);
        chars.append(&mut uid);
        let mut tail = str_chars("/auth?refreshUpdatedResources=False");
        chars.append(&mut tail);
        let path = chars_to_string(&chars);
        proof {
            assert(path@ =~= "/user/"@ + user_id@ + "/auth?refreshUpdatedResources=False"@);
        }
        (path, true)
    } else {
        ("/user/auth".to_owned(), false)
    }
}

/// What the game call does with one classified exchange outcome. The
/// retry budget and login outcomes live in the surrounding loop;
/// `spec_game_run` folds exactly these decisions, and `run_game_call` and
/// the embedding application both drive them.
pub enum RecoveryAction {
    Deliver(JsonMap),
    Surface(AppError),
    Relogin,
    RefreshCookies,
    RefreshVersion,
}

/// Decide the action for one exchange outcome: success is delivered; an
/// expired session re-logs; an expired cookie refreshes only when the
/// region requires cookies; a required upgrade refreshes the version;
/// everything else — maintenance included — surfaces as it is.
pub fn recovery_step(outcome: Result<JsonMap, AppError>, require_cookies: bool) -> (r:
    RecoveryAction)
    ensures
        match outcome {
            Ok(m) => r matches RecoveryAction::Deliver(d) && d == m,
            Err(e) => if e is SessionError {
                r == RecoveryAction::Relogin
            } else if e is CookieExpired {
                if require_cookies {
                    r == RecoveryAction::RefreshCookies
                } else {
                    r == RecoveryAction::Surface(AppError::CookieExpired)
                }
            } else if e is UpgradeRequired {
                r == RecoveryAction::RefreshVersion
            } else {
                r matches RecoveryAction::Surface(s) && s == e
            },
        },
{
    match outcome {
        Ok(m) => RecoveryAction::Deliver(m),
        Err(e) => match e {
            AppError::SessionError => RecoveryAction::Relogin,
            AppError::CookieExpired => {
                if require_cookies {
                    RecoveryAction::RefreshCookies
                } else {
                    RecoveryAction::Surface(AppError::CookieExpired)
                }
            }
            AppError::UpgradeRequired => RecoveryAction::RefreshVersion,
            other => RecoveryAction::Surface(other),
        },
    }
}

/// What one run of the high-level game call produced.
pub enum GameOutcome {
    Done(JsonMap),
    Fail(AppError),
    Exhausted,
    ScriptEnded,
}

/// The retry/recovery loop of the high-level game call over a script of
/// upstream exchange outcomes and re-login outcomes: a success returns;
/// an expired session re-logs (failing hard when the login fails); an
/// expired cookie refreshes only when the region requires cookies; an
/// upgrade refreshes the version; maintenance and every other failure
/// surface at once; four recoveries exhaust the call. Returns the
/// outcome, the count of upstream exchanges used, and of logins used.
pub open spec fn spec_game_run(
    events: Seq<Result<JsonMap, AppError>>,
    logins: Seq<bool>,
    require_cookies: bool,
    retry: int,
    ei: int,
    li: int,
) -> (GameOutcome, int, int)
    decreases 4 - retry,
{
    if retry >= 4 {
        (GameOutcome::Exhausted, ei, li)
    } else if ei >= events.len() {
        (GameOutcome::ScriptEnded, ei, li)
    } else {
        match events[ei] {
            Ok(m) => (GameOutcome::Done(m), ei + 1, li),
            Err(e) => if e is SessionError {
                if li >= logins.len() {
                    (GameOutcome::ScriptEnded, ei + 1, li)
                } else if logins[li] {
                    spec_game_run(events, logins, require_cookies, retry + 1, ei + 1, li + 1)
                } else {
                    (GameOutcome::Fail(AppError::SessionError), ei + 1, li + 1)
                }
            } else if e is CookieExpired {
                if require_cookies {
                    spec_game_run(events, logins, require_cookies, retry + 1, ei + 1, li)
                } else {
                    (GameOutcome::Fail(e), ei + 1, li)
                }
            } else if e is UpgradeRequired {
                spec_game_run(events, logins, require_cookies, retry + 1, ei + 1, li)
            } else {
                (GameOutcome::Fail(e), ei + 1, li)
            },
        }
    }
}

/// A maintenance response is never retried: whatever follows in the
/// script, the first exchange ending in maintenance surfaces at once,
/// after exactly one upstream call and no login.
pub proof fn lemma_maintenance_not_retried(
    events: Seq<Result<JsonMap, AppError>>,
    logins: Seq<bool>,
    require_cookies: bool,
)
    requires
        events.len() > 0,
        events[0] matches Err(e) && e is UnderMaintenance,
    ensures
        spec_game_run(events, logins, require_cookies, 0, 0, 0) == (
            GameOutcome::Fail(AppError::UnderMaintenance),
            1int,
            0int,
        ),
{
    assert(events[0]->Err_0 == AppError::UnderMaintenance);
}

/// Drive the retry/recovery loop over scripted exchange and login
/// outcomes: the executable form of `spec_game_run`, returning the result
/// plus how many exchanges and logins were consumed.
#[verifier::loop_isolation(false)]
pub fn run_game_call(
    events: Vec<Result<JsonMap, AppError>>,
    logins: Vec<bool>,
    require_cookies: bool,
) -> (r: (Result<(JsonMap, u16), AppError>, usize, usize))
    ensures
        ({
            let (outcome, calls, logins_used) = spec_game_run(
                events@,
                logins@,
                require_cookies,
                0,
                0,
                0,
            );
            &&& r.1 == calls
            &&& r.2 == logins_used
            &&& match outcome {
                GameOutcome::Done(m) => r.0 matches Ok(p) && p.0 == m && p.1 == 200,
                GameOutcome::Fail(e) => r.0 == Err::<(JsonMap, u16), AppError>(e),
                GameOutcome::Exhausted => r.0 matches Err(e) && e is NetworkError,
                GameOutcome::ScriptEnded => r.0 matches Err(e) && e is Internal,
            }
        }),
{
    let ghost gevents = events@;
    let ghost glogins = logins@;
    let total_events = events.len();
    let total_logins = logins.len();
    let mut events = events;
    let mut logins = logins;
    let mut retry: usize = 0;
    let mut ei: usize = 0;
    let mut li: usize = 0;
    while retry < 4
        invariant
            retry <= 4,
            total_events == gevents.len(),
            total_logins == glogins.len(),
            ei <= total_events,
            li <= total_logins,
            events@ =~= gevents.skip(ei as int),
            logins@ =~= glogins.skip(li as int),
            spec_game_run(gevents, glogins, require_cookies, 0, 0, 0) == spec_game_run(
                gevents,
                glogins,
                require_cookies,
                retry as int,
                ei as int,
                li as int,
            ),
        decreases 4 - retry,
    {
        if events.len() == 0 {
            return (Err(AppError::Internal("Exchange script ended".to_owned())), ei, li);
        }
        let ev = events.remove(0);
        proof {
            assert(ei < gevents.len());
            assert(gevents[ei as int] == ev);
            assert(events@ =~= gevents.skip(ei + 1));
        }
        ei = ei + 1;
        match recovery_step(ev, require_cookies) {
            RecoveryAction::Deliver(m) => {
                return (Ok((m, 200)), ei, li);
            }
            RecoveryAction::Surface(e) => {
                return (Err(e), ei, li);
            }
            RecoveryAction::Relogin => {
                if logins.len() == 0 {
                    return (
                        Err(AppError::Internal("Login script ended".to_owned())),
                        ei,
                        li,
                    );
                }
                let ok = logins.remove(0);
                proof {
                    assert(li < glogins.len());
                    assert(glogins[li as int] == ok);
                    assert(logins@ =~= glogins.skip(li + 1));
                }
                li = li + 1;
                if !ok {
                    return (Err(AppError::SessionError), ei, li);
                }
                retry = retry + 1;
            }
            RecoveryAction::RefreshCookies | RecoveryAction::RefreshVersion => {
                retry = retry + 1;
            }
        }
    }
    (Err(AppError::NetworkError("Max retry attempts reached".to_owned())), ei, li)
}

} // verus!
