//! Accounts of the two upstream dialects, their login payloads, the
//! per-account session state, and the round-robin session pool.

use vstd::prelude::*;

use crate::codec::{bytes_to_chars, spec_dec_i};
use crate::errors::AppError;
use crate::tokens::{spec_extract_jwt, spec_extract_nuverse};
use crate::trusted::{
    mmodel_has_float, msgpack_bytes_of, msgpack_encode, str_chars,
};
use crate::value::{obj_get, JModel, JsonMap, JsonVal, MModel, MsgVal};
use crate::version::{all_digits, digits_val, str_field};
use vstd::string::StringSliceAdditionalSpecFns;

verus! {

/// Signed 64-bit parse of a decimal string with an optional sign.
pub open spec fn spec_parse_i64(s: Seq<char>) -> Option<int> {
    let neg = s.len() > 0 && s[0] == '-';
    let t = if s.len() > 0 && (s[0] == '-' || s[0] == '+') {
        s.skip(1)
    } else {
        s
    };
    if t.len() > 0 && all_digits(t) {
        let v = if neg {
            -digits_val(t)
        } else {
            digits_val(t)
        };
        if i64::MIN <= v <= i64::MAX {
            Some(v)
        } else {
            None
        }
    } else {
        None
    }
}

/// Parse a decimal string (optional sign) as a signed 64-bit value.
#[verifier::loop_isolation(false)]
pub fn parse_i64_chars(s: &[char]) -> (r: Option<i64>)
    ensures
        match r {
            Some(v) => spec_parse_i64(s@) == Some(v as int),
            None => spec_parse_i64(s@) is None,
        },
{
    let neg = s.len() > 0 && s[0] == '-';
    let start: usize = if s.len() > 0 && (s[0] == '-' || s[0] == '+') {
        1
    } else {
        0
    };
    let ghost t = if s@.len() > 0 && (s@[0] == '-' || s@[0] == '+') {
        s@.skip(1)
    } else {
        s@
    };
    proof {
        assert(t.len() == s@.len() - start);
        assert(forall|j: int| 0 <= j < t.len() ==> t[j] == s@[j + start]);
    }
    if s.len() == start {
        return None;
    }
    let mut acc: u64 = 0;
    let mut i: usize = start;
    while i < s.len()
        invariant
            start <= i <= s@.len(),
            all_digits(t.take(i - start)),
            acc as int == digits_val(t.take(i - start)),
            acc <= i64::MAX as u64 + 1,
            neg || acc <= i64::MAX as u64,
            neg == (s@.len() > 0 && s@[0] == '-'),
        decreases s@.len() - i,
    {
        let c = s[i];
        if c < '0' || c > '9' {
            proof {
                assert(t[i - start] == c);
                assert(!all_digits(t));
            }
            return None;
        }
        let d = (c as u32 - '0' as u32) as u64;
        proof {
            assert(t.take(i - start + 1).drop_last() =~= t.take(i - start));
            assert(t.take(i - start + 1).last() == t[i - start]);
            assert(all_digits(t.take(i - start + 1)));
        }
        if acc > (u64::MAX - d) / 10 {
            proof {
                assert(acc as int * 10 + d as int > u64::MAX) by (nonlinear_arith)
                    requires
                        acc as int > ((u64::MAX - d) as int) / 10,
                        0 <= d <= 9,
                        acc as int >= 0,
                ;
                if all_digits(t) {
                    crate::version::lemma_digits_prefix_le(t, i - start + 1);
                }
            }
            return None;
        }
        acc = acc * 10 + d;
        i += 1;
        if acc > i64::MAX as u64 + 1 || (acc == i64::MAX as u64 + 1 && !neg) {
            proof {
                if all_digits(t) {
                    crate::version::lemma_digits_prefix_le(t, i - start);
                }
            }
            return None;
        }
    }
    proof {
        assert(t.take(i - start) =~= t);
    }
    if neg {
        if acc == i64::MAX as u64 + 1 {
            Some(i64::MIN)
        } else {
            Some(-(acc as i64))
        }
    } else {
        Some(acc as i64)
    }
}

/// A Colorful-Palette account: identity, device, and a JWT credential.
#[derive(Debug, PartialEq)]
pub struct SekaiAccountCP {
    pub user_id: String,
    pub device_id: String,
    pub credential: String,
}

/// A Nuverse account: identity, device, and a wrapped access token.
#[derive(Debug, PartialEq)]
pub struct SekaiAccountNuverse {
    pub user_id: String,
    pub device_id: String,
    pub access_token: String,
}

/// The authentication payload of a CP login: the optional device id, the
/// credential, and the fixed trigger type, in that field order.
pub open spec fn spec_cp_payload(device_id: Seq<char>, credential: Seq<char>) -> MModel {
    let tail = seq![
        (MModel::Str("credential"@), MModel::Str(credential)),
        (MModel::Str("authTriggerType"@), MModel::Str("normal"@)),
    ];
    if device_id.len() > 0 {
        MModel::MapM(seq![(MModel::Str("deviceId"@), MModel::Str(device_id))] + tail)
    } else {
        MModel::MapM(tail)
    }
}

/// The authentication payload of a Nuverse login: the optional device id,
/// the access token, and the numeric user id.
pub open spec fn spec_nuverse_payload(
    device_id: Seq<char>,
    access_token: Seq<char>,
    uid: int,
) -> MModel {
    let tail = seq![
        (MModel::Str("accessToken"@), MModel::Str(access_token)),
        (MModel::Str("userID"@), MModel::Int(uid)),
    ];
    if device_id.len() > 0 {
        MModel::MapM(seq![(MModel::Str("deviceId"@), MModel::Str(device_id))] + tail)
    } else {
        MModel::MapM(tail)
    }
}

/// An account of either dialect.
#[derive(Debug, PartialEq)]
pub enum AccountType {
    CP(SekaiAccountCP),
    Nuverse(SekaiAccountNuverse),
}

/// What an account of either dialect provides: its identity, device and
/// credential token, and the serialisation of its login payload.
pub trait SekaiAccount {
    /// The account's user identity.
    spec fn spec_user_id(&self) -> Seq<char>;

    /// The account's device identity.
    spec fn spec_device_id(&self) -> Seq<char>;

    /// The account's credential token.
    spec fn spec_token(&self) -> Seq<char>;

    /// The login payload the account serialises to, when it can.
    spec fn spec_payload(&self) -> Option<MModel>;

    /// The user identity, as a fresh string.
    fn user_id(&self) -> (r: String)
        ensures
            r@ == self.spec_user_id(),
    ;

    /// The device identity.
    fn device_id(&self) -> (r: &str)
        ensures
            r@ == self.spec_device_id(),
    ;

    /// The credential token.
    fn token(&self) -> (r: &str)
        ensures
            r@ == self.spec_token(),
    ;

    /// Serialise the login payload to MessagePack per the account's
    /// dialect.
    fn dump(&self) -> (r: Result<Vec<u8>, AppError>)
        ensures
            match r {
                Ok(b) => self.spec_payload() matches Some(m) && b@ == msgpack_bytes_of(m),
                Err(e) => self.spec_payload() is None && e is ParseError,
            },
    ;
}

impl SekaiAccount for SekaiAccountCP {
    open spec fn spec_user_id(&self) -> Seq<char> {
        self.user_id@
    }

    open spec fn spec_device_id(&self) -> Seq<char> {
        self.device_id@
    }

    open spec fn spec_token(&self) -> Seq<char> {
        self.credential@
    }

    open spec fn spec_payload(&self) -> Option<MModel> {
        Some(spec_cp_payload(self.device_id@, self.credential@))
    }

    fn user_id(&self) -> (r: String) {
        self.user_id.clone()
    }

    fn device_id(&self) -> (r: &str) {
        self.device_id.as_str()
    }

    fn token(&self) -> (r: &str) {
        self.credential.as_str()
    }

    fn dump(&self) -> (r: Result<Vec<u8>, AppError>) {
        dump_cp(self)
    }
}

impl SekaiAccount for SekaiAccountNuverse {
    open spec fn spec_user_id(&self) -> Seq<char> {
        self.user_id@
    }

    open spec fn spec_device_id(&self) -> Seq<char> {
        self.device_id@
    }

    open spec fn spec_token(&self) -> Seq<char> {
        self.access_token@
    }

    open spec fn spec_payload(&self) -> Option<MModel> {
        match spec_parse_i64(self.user_id@) {
            Some(uid) => Some(spec_nuverse_payload(self.device_id@, self.access_token@, uid)),
            None => None,
        }
    }

    fn user_id(&self) -> (r: String) {
        self.user_id.clone()
    }

    fn device_id(&self) -> (r: &str) {
        self.device_id.as_str()
    }

    fn token(&self) -> (r: &str) {
        self.access_token.as_str()
    }

    fn dump(&self) -> (r: Result<Vec<u8>, AppError>) {
        dump_nuverse(self)
    }
}

impl SekaiAccount for AccountType {
    /// The account's user identity.
    open spec fn spec_user_id(&self) -> Seq<char> {
        match self {
            AccountType::CP(a) => a.user_id@,
            AccountType::Nuverse(a) => a.user_id@,
        }
    }

    /// The account's device identity.
    open spec fn spec_device_id(&self) -> Seq<char> {
        match self {
            AccountType::CP(a) => a.device_id@,
            AccountType::Nuverse(a) => a.device_id@,
        }
    }

    /// The account's credential token.
    open spec fn spec_token(&self) -> Seq<char> {
        match self {
            AccountType::CP(a) => a.credential@,
            AccountType::Nuverse(a) => a.access_token@,
        }
    }

    /// The login payload the account serialises to, when it can: a Nuverse
    /// account with a non-numeric user id has none.
    open spec fn spec_payload(&self) -> Option<MModel> {
        match self {
            AccountType::CP(a) => Some(spec_cp_payload(a.device_id@, a.credential@)),
            AccountType::Nuverse(a) => match spec_parse_i64(a.user_id@) {
                Some(uid) => Some(spec_nuverse_payload(a.device_id@, a.access_token@, uid)),
                None => None,
            },
        }
    }

    /// The user identity, as a fresh string.
    fn user_id(&self) -> (r: String) {
        match self {
            AccountType::CP(a) => a.user_id.clone(),
            AccountType::Nuverse(a) => a.user_id.clone(),
        }
    }

    /// The credential token.
    fn token(&self) -> (r: &str) {
        match self {
            AccountType::CP(a) => a.credential.as_str(),
            AccountType::Nuverse(a) => a.access_token.as_str(),
        }
    }

    /// The device identity.
    fn device_id(&self) -> (r: &str) {
        match self {
            AccountType::CP(a) => a.device_id.as_str(),
            AccountType::Nuverse(a) => a.device_id.as_str(),
        }
    }

    /// Serialise the login payload per the account's dialect.
    fn dump(&self) -> (r: Result<Vec<u8>, AppError>) {
        match self {
            AccountType::CP(a) => dump_cp(a),
            AccountType::Nuverse(a) => dump_nuverse(a),
        }
    }
}

impl AccountType {
    /// Replace the user identity, leaving the other fields as they stand.
    pub fn set_user_id(&mut self, user_id: String)
        ensures
            final(self).spec_user_id() == user_id@,
            final(self).spec_device_id() == old(self).spec_device_id(),
            final(self).spec_token() == old(self).spec_token(),
            (*final(self)) is CP == (*old(self)) is CP,
    {
        match self {
            AccountType::CP(a) => {
                a.user_id = user_id;
            }
            AccountType::Nuverse(a) => {
                a.user_id = user_id;
            }
        }
    }

}

/// Serialise a CP login payload: the optional device id, the credential,
/// and the fixed trigger type, MessagePack-encoded.
fn dump_cp(a: &SekaiAccountCP) -> (r: Result<Vec<u8>, AppError>)
    ensures
        match r {
            Ok(b) => b@ == msgpack_bytes_of(spec_cp_payload(a.device_id@, a.credential@)),
            Err(_) => false,
        },
{
    let mut pairs: Vec<(MsgVal, MsgVal)> = Vec::new();
    if !a.device_id.as_str().is_empty() {
        pairs.push((MsgVal::Str("deviceId".to_owned()), MsgVal::Str(a.device_id.clone())));
    }
    pairs.push((MsgVal::Str("credential".to_owned()), MsgVal::Str(a.credential.clone())));
    pairs.push(
        (MsgVal::Str("authTriggerType".to_owned()), MsgVal::Str("normal".to_owned())),
    );
    let v = MsgVal::MapV(pairs);
    proof {
        reveal_with_fuel(MsgVal::model, 3);
        let sp = spec_cp_payload(a.device_id@, a.credential@);
        assert(v@->MapM_0.len() == sp->MapM_0.len());
        assert(v@->MapM_0 =~~= sp->MapM_0);
        assert(v@ == sp);
        assert(!mmodel_has_float(v@)) by {
            assert(!crate::trusted::pairs_mmodel_has_float(v@->MapM_0)) by {
                crate::trusted::lemma_pairs_no_float(v@->MapM_0);
            }
        }
    }
    match msgpack_encode(&v) {
        Some(b) => Ok(b),
        None => Err(AppError::ParseError("MsgPack encode error".to_owned())),
    }
}

/// Serialise a Nuverse login payload: the optional device id, the access
/// token, and the numeric user id; a non-numeric id is a `ParseError`.
fn dump_nuverse(a: &SekaiAccountNuverse) -> (r: Result<Vec<u8>, AppError>)
    ensures
        match r {
            Ok(b) => spec_parse_i64(a.user_id@) matches Some(uid) && b@ == msgpack_bytes_of(
                spec_nuverse_payload(a.device_id@, a.access_token@, uid),
            ),
            Err(e) => spec_parse_i64(a.user_id@) is None && e is ParseError,
        },
{
    let uid_chars = str_chars(a.user_id.as_str());
    let uid = match parse_i64_chars(uid_chars.as_slice()) {
        Some(n) => n,
        None => {
            return Err(AppError::ParseError("Invalid user id for login payload".to_owned()));
        }
    };
    let mut pairs: Vec<(MsgVal, MsgVal)> = Vec::new();
    if !a.device_id.as_str().is_empty() {
        pairs.push((MsgVal::Str("deviceId".to_owned()), MsgVal::Str(a.device_id.clone())));
    }
    pairs.push((MsgVal::Str("accessToken".to_owned()), MsgVal::Str(a.access_token.clone())));
    pairs.push((MsgVal::Str("userID".to_owned()), MsgVal::Int(uid)));
    let v = MsgVal::MapV(pairs);
    proof {
        reveal_with_fuel(MsgVal::model, 3);
        let sp = spec_nuverse_payload(a.device_id@, a.access_token@, uid as int);
        assert(v@->MapM_0.len() == sp->MapM_0.len());
        assert(v@->MapM_0 =~~= sp->MapM_0);
        assert(v@ == sp);
        assert(!mmodel_has_float(v@)) by {
            assert(!crate::trusted::pairs_mmodel_has_float(v@->MapM_0)) by {
                crate::trusted::lemma_pairs_no_float(v@->MapM_0);
            }
        }
    }
    match msgpack_encode(&v) {
        Some(b) => Ok(b),
        None => Err(AppError::ParseError("MsgPack encode error".to_owned())),
    }
}

/// One authenticated session: an account plus the sliding session token
/// the upstream rotates on every response.
#[derive(Debug, PartialEq)]
pub struct AccountSession {
    pub account: AccountType,
    pub session_token: Option<String>,
}

/// The registration record a Nuverse login response may carry.
#[derive(Debug, PartialEq)]
pub struct UserRegistration {
    pub user_id: String,
}

/// The outcome of one login exchange, as the engine reads it.
#[derive(Debug, PartialEq)]
pub struct LoginResponse {
    pub session_token: String,
    pub data_version: String,
    pub asset_version: String,
    pub asset_hash: String,
    pub suite_master_split_path: Vec<String>,
    pub cdn_version: i64,
    pub user_registration: Option<UserRegistration>,
}

impl AccountSession {
    /// A fresh session: no token yet.
    pub fn new(account: AccountType) -> (r: AccountSession)
        ensures
            r.account == account,
            r.session_token is None,
    {
        AccountSession { account, session_token: None }
    }

    /// The session's current user identity.
    pub fn user_id(&self) -> (r: String)
        ensures
            r@ == self.account.spec_user_id(),
    {
        self.account.user_id()
    }

    /// Replace the session token (the upstream rotates it per call).
    pub fn set_session_token(&mut self, token: Option<String>)
        ensures
            final(self).session_token == token,
            final(self).account == old(self).account,
    {
        self.session_token = token;
    }

    /// Serialise the login payload of the session's account.
    pub fn dump_account(&self) -> (r: Result<Vec<u8>, AppError>)
        ensures
            match r {
                Ok(b) => self.account.spec_payload() matches Some(m) && b@ == msgpack_bytes_of(m),
                Err(e) => self.account.spec_payload() is None && e is ParseError,
            },
    {
        self.account.dump()
    }

    /// Apply a login response: a non-empty session token replaces the
    /// stored one; for the Nuverse dialect, a non-empty registration id
    /// other than `"0"` replaces the user identity.
    pub fn apply_login_response(&mut self, resp: &LoginResponse, is_cp: bool)
        ensures
            final(self).session_token == if resp.session_token@.len() > 0 {
                Some(resp.session_token)
            } else {
                old(self).session_token
            },
            final(self).account.spec_user_id() == {
                match resp.user_registration {
                    Some(reg) => if !is_cp && reg.user_id@.len() > 0 && reg.user_id@ != "0"@ {
                        reg.user_id@
                    } else {
                        old(self).account.spec_user_id()
                    },
                    None => old(self).account.spec_user_id(),
                }
            },
            final(self).account.spec_device_id() == old(self).account.spec_device_id(),
            final(self).account.spec_token() == old(self).account.spec_token(),
            final(self).account is CP == old(self).account is CP,
    {
        if !resp.session_token.as_str().is_empty() {
            self.session_token = Some(resp.session_token.clone());
        }
        if !is_cp {
            match &resp.user_registration {
                Some(reg) => {
                    let zero: String = "0".to_owned();
                    if !reg.user_id.as_str().is_empty() && !reg.user_id.eq(&zero) {
                        self.account.set_user_id(reg.user_id.clone());
                    }
                }
                None => {}
            }
        }
    }
}

impl LoginResponse {
    /// Read a login response from a decoded payload, defaulting every
    /// missing field: empty strings, an empty path list, zero versions.
    /// Path entries that are not strings are dropped; a registration id
    /// carried as a number becomes its decimal form.
    pub fn from_json(doc: &JsonMap) -> (r: LoginResponse)
        ensures
            r.session_token@ == str_field(doc@, "sessionToken"@),
            r.data_version@ == str_field(doc@, "dataVersion"@),
            r.asset_version@ == str_field(doc@, "assetVersion"@),
            r.asset_hash@ == str_field(doc@, "assetHash"@),
            r.cdn_version as int == crate::version::int_field(doc@, "cdnVersion"@),
            crate::restore::views_of_strings(r.suite_master_split_path@) == spec_string_list(
                match obj_get(doc@, "suiteMasterSplitPath"@) {
                    Some(v) => if v is Arr {
                        v->Arr_0
                    } else {
                        Seq::empty()
                    },
                    None => Seq::empty(),
                },
            ),
            match r.user_registration {
                Some(reg) => match obj_get(doc@, "userRegistration"@) {
                    Some(v) => v is Obj && reg.user_id@ == spec_reg_id(v->Obj_0),
                    None => false,
                },
                None => !(obj_get(doc@, "userRegistration"@) matches Some(JModel::Obj(_))),
            },
    {
        let split_path: Vec<String> = match doc.get("suiteMasterSplitPath") {
            Some(v) => match v.as_array() {
                Some(items) => collect_strings(items),
                None => {
                    let e: Vec<String> = Vec::new();
                    proof {
                        assert(crate::restore::views_of_strings(e@) =~= spec_string_list(
                            Seq::empty(),
                        ));
                    }
                    e
                }
            },
            None => {
                let e: Vec<String> = Vec::new();
                proof {
                    assert(crate::restore::views_of_strings(e@) =~= spec_string_list(
                        Seq::empty(),
                    ));
                }
                e
            }
        };
        let reg = match doc.get("userRegistration") {
            Some(v) => match v.as_object() {
                Some(o) => Some(UserRegistration { user_id: id_field(o, "userId", "userID") }),
                None => None,
            },
            None => None,
        };
        LoginResponse {
            session_token: crate::version::get_str_field(doc, "sessionToken"),
            data_version: crate::version::get_str_field(doc, "dataVersion"),
            asset_version: crate::version::get_str_field(doc, "assetVersion"),
            asset_hash: crate::version::get_str_field(doc, "assetHash"),
            suite_master_split_path: split_path,
            cdn_version: crate::version::get_int_field(doc, "cdnVersion"),
            user_registration: reg,
        }
    }
}

/// The string elements of a JSON list, in order; other elements dropped.
pub open spec fn spec_string_list(items: Seq<JModel>) -> Seq<Seq<char>>
    decreases items,
{
    if items.len() == 0 {
        Seq::empty()
    } else {
        let rest = spec_string_list(items.drop_last());
        if items.last() is Str {
            rest.push(items.last()->Str_0)
        } else {
            rest
        }
    }
}

/// Collect the string elements of a decoded list.
#[verifier::loop_isolation(false)]
fn collect_strings(items: &Vec<JsonVal>) -> (r: Vec<String>)
    ensures
        crate::restore::views_of_strings(r@) == spec_string_list(
            crate::value::models_of_jvals(items@),
        ),
{
    let ghost mitems = crate::value::models_of_jvals(items@);
    let mut out: Vec<String> = Vec::new();
    let n = items.len();
    let mut i: usize = 0;
    while i < n
        invariant
            i <= n,
            crate::restore::views_of_strings(out@) =~= spec_string_list(mitems.take(i as int)),
        decreases n - i,
    {
        proof {
            assert(mitems.take(i + 1).drop_last() =~= mitems.take(i as int));
            assert(mitems.take(i + 1).last() == mitems[i as int]);
            assert(mitems[i as int] == items@[i as int].model());
        }
        let ghost before = out@;
        match items[i].as_str() {
            Some(s) => {
                out.push(s.clone());
                proof {
                    assert(crate::restore::views_of_strings(out@)
                        =~= crate::restore::views_of_strings(before).push(
                        mitems[i as int]->Str_0,
                    ));
                }
            }
            None => {}
        }
        i += 1;
    }
    proof {
        assert(mitems.take(n as int) =~= mitems);
        assert(crate::restore::views_of_strings(out@) =~= spec_string_list(mitems));
    }
    out
}

/// An identity field read under a primary and a fallback key: a string
/// stays as it is, a number is rendered in decimal, anything else (or a
/// missing field) is the empty string.
pub open spec fn spec_id_field(
    o: Seq<(Seq<char>, JModel)>,
    k1: Seq<char>,
    k2: Seq<char>,
) -> Seq<char> {
    let v = match obj_get(o, k1) {
        Some(x) => Some(x),
        None => obj_get(o, k2),
    };
    match v {
        Some(JModel::Str(s)) => s,
        Some(JModel::Int(n)) => if i64::MIN <= n <= u64::MAX {
            bytes_to_chars(spec_dec_i(n))
        } else {
            Seq::empty()
        },
        _ => Seq::empty(),
    }
}

/// The registration id of a login response: its `userId`/`userID` field.
pub open spec fn spec_reg_id(o: Seq<(Seq<char>, JModel)>) -> Seq<char> {
    spec_id_field(o, "userId"@, "userID"@)
}

/// Read an identity field under a primary and a fallback key.
fn id_field(doc: &JsonMap, k1: &str, k2: &str) -> (r: String)
    ensures
        r@ == spec_id_field(doc@, k1@, k2@),
{
    let v = match doc.get(k1) {
        Some(x) => Some(x),
        None => doc.get(k2),
    };
    match v {
        Some(x) => match x {
            JsonVal::Str(s) => s.clone(),
            JsonVal::Int(n) => crate::codec::int_key_string(*n),
            JsonVal::UInt(n) => {
                let s = crate::codec::uint_key_string(*n);
                proof {
                    assert(spec_dec_i(*n as int) == crate::codec::spec_dec_u(*n as nat));
                }
                s
            }
            _ => {
                let e = String::new();
                proof {
                    assert(e@ =~= Seq::<char>::empty());
                }
                e
            }
        },
        None => {
            let e = String::new();
            proof {
                assert(e@ =~= Seq::<char>::empty());
            }
            e
        }
    }
}

/// Whether an account parsed from disk is kept for the pool: the CP
/// dialect drops accounts with an empty identity.
pub fn keep_account(is_cp: bool, account: &AccountType) -> (r: bool)
    ensures
        r == !(is_cp && account.spec_user_id().len() == 0),
{
    if is_cp {
        let uid = account.user_id();
        !uid.as_str().is_empty()
    } else {
        true
    }
}

/// Parse one account entry from a decoded JSON document per the region's
/// dialect. A usable stored identity is kept as it stands; only an absent
/// one — empty for the CP dialect, empty or `"0"` for Nuverse — is derived
/// from the embedded token, and a failed derivation leaves it as stored
/// (the CP loader later drops accounts whose id is still empty). A CP
/// account stores its id under `userId` alone; a Nuverse one also accepts
/// `userID`.
pub fn parse_account_value(is_cp: bool, doc: &JsonMap) -> (r: AccountType)
    ensures
        r is CP == is_cp,
        r.spec_device_id() == str_field(doc@, "deviceId"@),
        is_cp ==> r.spec_token() == str_field(doc@, "credential"@),
        !is_cp ==> r.spec_token() == str_field(doc@, "accessToken"@),
        is_cp ==> r.spec_user_id() == {
            let stored = spec_id_field(doc@, "userId"@, "userId"@);
            if stored.len() > 0 {
                stored
            } else {
                match spec_extract_jwt(
                    vstd::utf8::encode_utf8(str_field(doc@, "credential"@)),
                ) {
                    Some(u) => u,
                    None => stored,
                }
            }
        },
        !is_cp ==> r.spec_user_id() == {
            let stored = spec_id_field(doc@, "userId"@, "userID"@);
            if stored.len() > 0 && stored != "0"@ {
                stored
            } else {
                match spec_extract_nuverse(
                    vstd::utf8::encode_utf8(str_field(doc@, "accessToken"@)),
                ) {
                    Some(u) => u,
                    None => stored,
                }
            }
        },
{
    let device = crate::version::get_str_field(doc, "deviceId");
    if is_cp {
        let stored = id_field(doc, "userId", "userId");
        let credential = crate::version::get_str_field(doc, "credential");
        let uid = if !stored.as_str().is_empty() {
            stored
        } else {
            match crate::tokens::extract_user_id_from_jwt(credential.as_str()) {
                Ok(u) => u,
                Err(_) => stored,
            }
        };
        AccountType::CP(SekaiAccountCP { user_id: uid, device_id: device, credential })
    } else {
        let stored = id_field(doc, "userId", "userID");
        let access_token = crate::version::get_str_field(doc, "accessToken");
        let zero: String = "0".to_owned();
        let uid = if !stored.as_str().is_empty() && !stored.eq(&zero) {
            stored
        } else {
            match crate::tokens::extract_user_id_from_nuverse_token(access_token.as_str()) {
                Ok(u) => u,
                Err(_) => stored,
            }
        };
        AccountType::Nuverse(
            SekaiAccountNuverse { user_id: uid, device_id: device, access_token },
        )
    }
}

/// The pool of authenticated sessions of one region, served round-robin.
pub struct SessionPool {
    pub sessions: Vec<AccountSession>,
    pub index: usize,
}

impl SessionPool {
    /// An empty pool with the round-robin cursor at zero.
    pub fn new() -> (r: SessionPool)
        ensures
            r.sessions@.len() == 0,
            r.index == 0,
    {
        SessionPool { sessions: Vec::new(), index: 0 }
    }

    /// Append a session after a successful login.
    pub fn push_session(&mut self, s: AccountSession)
        ensures
            final(self).sessions@ == old(self).sessions@.push(s),
            final(self).index == old(self).index,
    {
        self.sessions.push(s);
    }

    /// Empty the pool and reset the cursor, as a reload does.
    pub fn reset(&mut self)
        ensures
            final(self).sessions@.len() == 0,
            final(self).index == 0,
    {
        self.sessions.clear();
        self.index = 0;
    }

    /// Pick the next session round-robin: the cursor modulo the pool
    /// length, advancing the cursor by one (wrapping at the machine
    /// limit); `None` on an empty pool.
    pub fn get_session(&mut self) -> (r: Option<usize>)
        ensures
            final(self).sessions@ == old(self).sessions@,
            match r {
                Some(i) => {
                    &&& old(self).sessions@.len() > 0
                    &&& i == old(self).index as int % old(self).sessions@.len() as int
                    &&& final(self).index == if old(self).index == usize::MAX {
                        0int
                    } else {
                        old(self).index + 1
                    }
                },
                None => old(self).sessions@.len() == 0 && final(self).index == old(self).index,
            },
    {
        if self.sessions.len() == 0 {
            return None;
        }
        let i = self.index % self.sessions.len();
        if self.index == usize::MAX {
            self.index = 0;
        } else {
            self.index = self.index + 1;
        }
        Some(i)
    }
}

/// How many of the first `total` round-robin picks land on slot `i` of a
/// pool of `n`.
pub open spec fn count_hits(total: nat, n: nat, i: nat) -> nat
    decreases total,
{
    if total == 0 {
        0
    } else {
        count_hits((total - 1) as nat, n, i) + if (total - 1) as nat % n == i {
            1nat
        } else {
            0nat
        }
    }
}

/// Round-robin fairness: over any `k * n` consecutive picks starting at a
/// fresh cursor, every slot `i < n` is returned exactly `k` times.
pub proof fn lemma_round_robin_fair(n: nat, k: nat, i: nat)
    requires
        n > 0,
        i < n,
    ensures
        count_hits(k * n, n, i) == k,
    decreases k,
{
    if k == 0 {
        assert(k * n == 0) by (nonlinear_arith)
            requires
                k == 0,
        ;
    } else {
        lemma_round_robin_fair(n, (k - 1) as nat, i);
        assert((k - 1) as nat * n + n == k * n) by (nonlinear_arith)
            requires
                k >= 1,
        ;
        assert(((k - 1) as nat * n) % n == 0) by (nonlinear_arith)
            requires
                n > 0,
        ;
        lemma_window_hits((k - 1) as nat * n, n, i, n);
    }
}

/// Within one window of `n` picks starting at a multiple of `n`, slot `i`
/// is hit exactly once: by the pick at offset `i`.
proof fn lemma_window_hits(base: nat, n: nat, i: nat, t: nat)
    requires
        n > 0,
        i < n,
        base % n == 0,
        t <= n,
    ensures
        count_hits(base + t, n, i) == count_hits(base, n, i) + if i < t {
            1nat
        } else {
            0nat
        },
    decreases t,
{
    if t > 0 {
        lemma_window_hits(base, n, i, (t - 1) as nat);
        assert((base + t - 1) as nat % n == (t - 1) as nat) by (nonlinear_arith)
            requires
                n > 0,
                base % n == 0,
                0 < t <= n,
                base >= 0,
        ;
    }
}

} // verus!
