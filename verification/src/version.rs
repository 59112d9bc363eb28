//! Version manifests: dotted version comparison, the manifest record, and
//! the decisions of the master-data and app-hash synchronisation tasks.

use vstd::prelude::*;

use crate::errors::AppError;
use crate::trusted::{chars_to_string, str_chars};
use crate::value::{obj_get, obj_insert, JModel, JsonMap, JsonVal};

verus! {

/// Index of the first `.` in `s`, or `-1` if none.
pub open spec fn first_dot(s: Seq<char>) -> int
    decreases s.len(),
{
    if s.len() == 0 {
        -1
    } else if s[0] == '.' {
        0
    } else {
        let r = first_dot(s.skip(1));
        if r < 0 {
            -1
        } else {
            r + 1
        }
    }
}

/// `first_dot` finds the first dot: in bounds and with none before it;
/// `-1` means the string has no dot at all.
pub proof fn lemma_first_dot(s: Seq<char>)
    ensures
        first_dot(s) >= 0 ==> {
            &&& first_dot(s) < s.len()
            &&& s[first_dot(s)] == '.'
            &&& forall|j: int| 0 <= j < first_dot(s) ==> s[j] != '.'
        },
        first_dot(s) == -1 ==> forall|j: int| 0 <= j < s.len() ==> s[j] != '.',
        first_dot(s) >= -1,
    decreases s.len(),
{
    if s.len() > 0 && s[0] != '.' {
        lemma_first_dot(s.skip(1));
        assert(forall|j: int| 0 < j < s.len() ==> s.skip(1)[j - 1] == s[j]);
    }
}

/// The segments of `s` split on `.`: always at least one, possibly empty.
pub open spec fn split_dots(s: Seq<char>) -> Seq<Seq<char>>
    decreases s.len(),
{
    let i = first_dot(s);
    if i < 0 {
        seq![s]
    } else if i < s.len() {
        seq![s.take(i)] + split_dots(s.skip(i + 1))
    } else {
        seq![s]
    }
}

/// The numeric value of a run of decimal digits.
pub open spec fn digits_val(s: Seq<char>) -> int
    decreases s,
{
    if s.len() == 0 {
        0
    } else {
        digits_val(s.drop_last()) * 10 + (s.last() as int - '0' as int)
    }
}

/// Whether every character is a decimal digit.
pub open spec fn all_digits(s: Seq<char>) -> bool {
    forall|i: int| 0 <= i < s.len() ==> '0' <= #[trigger] s[i] <= '9'
}

/// Unsigned parse of one segment: an optional leading `+`, then at least
/// one digit, with the value fitting a 32-bit unsigned integer.
pub open spec fn spec_parse_u32(s: Seq<char>) -> Option<int> {
    let t = if s.len() > 0 && s[0] == '+' {
        s.skip(1)
    } else {
        s
    };
    if t.len() > 0 && all_digits(t) && digits_val(t) <= u32::MAX {
        Some(digits_val(t))
    } else {
        None
    }
}

/// All segments parsed, or `None` when any fails.
pub open spec fn spec_parse_segments(parts: Seq<Seq<char>>) -> Option<Seq<int>>
    decreases parts,
{
    if parts.len() == 0 {
        Some(Seq::empty())
    } else {
        match (spec_parse_segments(parts.drop_last()), spec_parse_u32(parts.last())) {
            (Some(rest), Some(v)) => Some(rest.push(v)),
            _ => None,
        }
    }
}

/// Per-segment comparison from position `i`, the shorter side padded with
/// zero segments: true iff `x` is greater at the first differing position.
pub open spec fn spec_gt_from(x: Seq<int>, y: Seq<int>, i: int) -> bool
    decreases x.len() + y.len() - i,
{
    if i >= x.len() && i >= y.len() {
        false
    } else {
        let a = if i < x.len() {
            x[i]
        } else {
            0
        };
        let b = if i < y.len() {
            y[i]
        } else {
            0
        };
        if a > b {
            true
        } else if a < b {
            false
        } else {
            spec_gt_from(x, y, i + 1)
        }
    }
}

/// What `compare_version` decides for two parseable version strings.
pub open spec fn spec_version_gt(a: Seq<char>, b: Seq<char>) -> Option<bool> {
    match (
        spec_parse_segments(split_dots(a)),
        spec_parse_segments(split_dots(b)),
    ) {
        (Some(x), Some(y)) => Some(spec_gt_from(x, y, 0)),
        _ => None,
    }
}

/// A prefix of a digit run never exceeds the whole run's value.
pub proof fn lemma_digits_prefix_le(s: Seq<char>, i: int)
    requires
        0 <= i <= s.len(),
        all_digits(s),
    ensures
        digits_val(s.take(i)) <= digits_val(s),
    decreases s.len() - i,
{
    if i < s.len() {
        lemma_digits_prefix_le(s, i + 1);
        assert(s.take(i + 1).drop_last() =~= s.take(i));
        assert(digits_val(s.take(i)) >= 0) by {
            lemma_digits_nonneg(s.take(i));
        }
        assert(digits_val(s.take(i + 1)) == digits_val(s.take(i)) * 10 + (
        s.take(i + 1).last() as int - '0' as int));
    } else {
        assert(s.take(i) =~= s);
    }
}

/// Digit runs have non-negative values.
proof fn lemma_digits_nonneg(s: Seq<char>)
    requires
        all_digits(s),
    ensures
        digits_val(s) >= 0,
    decreases s,
{
    if s.len() > 0 {
        assert(all_digits(s.drop_last())) by {
            assert(forall|j: int| 0 <= j < s.len() - 1 ==> s.drop_last()[j] == s[j]);
        }
        lemma_digits_nonneg(s.drop_last());
    }
}

/// Parse one segment of decimal digits (with an optional leading `+`) as
/// an unsigned 32-bit value.
#[verifier::loop_isolation(false)]
fn parse_u32_chars(s: &[char]) -> (r: Option<u32>)
    ensures
        match r {
            Some(v) => spec_parse_u32(s@) == Some(v as int),
            None => spec_parse_u32(s@) is None,
        },
{
    let start: usize = if s.len() > 0 && s[0] == '+' {
        1
    } else {
        0
    };
    let ghost t = if s@.len() > 0 && s@[0] == '+' {
        s@.skip(1)
    } else {
        s@
    };
    proof {
        assert(t.len() == s@.len() - start);
        assert(forall|j: int| 0 <= j < t.len() ==> t[j] == s@[j + start]);
    }
    if s.len() == start {
        return None;
    }
    let mut acc: u64 = 0;
    let mut i: usize = start;
    while i < s.len()
        invariant
            start <= i <= s@.len(),
            t.len() == s@.len() - start,
            forall|j: int| 0 <= j < t.len() ==> t[j] == s@[j + start],
            all_digits(t.take(i - start)),
            acc as int == digits_val(t.take(i - start)),
            acc <= u32::MAX,
        decreases s@.len() - i,
    {
        let c = s[i];
        if c < '0' || c > '9' {
            proof {
                assert(t[i - start] == c);
                assert(!all_digits(t));
            }
            return None;
        }
        let d = (c as u32 - '0' as u32) as u64;
        proof {
            assert(t.take(i - start + 1).drop_last() =~= t.take(i - start));
            assert(t.take(i - start + 1).last() == t[i - start]);
            assert(all_digits(t.take(i - start + 1)));
        }
        acc = acc * 10 + d;
        i += 1;
        if acc > u32::MAX as u64 {
            proof {
                if all_digits(t) {
                    lemma_digits_prefix_le(t, i - start);
                }
            }
            return None;
        }
    }
    proof {
        assert(t.take(i - start) =~= t);
    }
    Some(acc as u32)
}

/// Split a version string's characters on dots.
fn split_dots_chars(s: &[char]) -> (r: Vec<Vec<char>>)
    ensures
        r@.len() == split_dots(s@).len(),
        forall|i: int| 0 <= i < r@.len() ==> #[trigger] r@[i]@ == split_dots(s@)[i],
    decreases s@.len(),
{
    proof {
        lemma_first_dot(s@);
    }
    let n = s.len();
    let mut i: usize = 0;
    while i < n && s[i] != '.'
        invariant
            i <= n,
            n == s@.len(),
            forall|j: int| 0 <= j < i ==> s@[j] != '.',
            first_dot(s@) >= 0 ==> first_dot(s@) < s@.len() && s@[first_dot(s@)] == '.'
                && forall|j: int| 0 <= j < first_dot(s@) ==> s@[j] != '.',
            first_dot(s@) == -1 ==> forall|j: int| 0 <= j < s@.len() ==> s@[j] != '.',
        decreases n - i,
    {
        i += 1;
    }
    let dot: Option<usize> = if i < n {
        proof {
            assert(s@[i as int] == '.');
            assert(first_dot(s@) == i as int) by {
                if first_dot(s@) < i as int && first_dot(s@) >= 0 {
                    assert(s@[first_dot(s@)] == '.');
                }
                if first_dot(s@) == -1 {
                    assert(s@[i as int] != '.');
                }
                if first_dot(s@) > i as int {
                    assert(s@[i as int] != '.');
                }
            }
        }
        Some(i)
    } else {
        proof {
            if first_dot(s@) >= 0 {
                assert(s@[first_dot(s@)] == '.');
            }
        }
        None
    };
    match dot {
        Some(d) => {
            let mut head: Vec<char> = Vec::new();
            let mut j: usize = 0;
            while j < d
                invariant
                    j <= d,
                    d < s@.len(),
                    head@ =~= s@.take(j as int),
                decreases d - j,
            {
                head.push(s[j]);
                proof {
                    assert(head@ =~= s@.take(j + 1));
                }
                j += 1;
            }
            let rest_slice = &s[d + 1..s.len()];
            proof {
                assert(rest_slice@ =~= s@.skip(d + 1));
            }
            let rest = split_dots_chars(rest_slice);
            let mut out: Vec<Vec<char>> = Vec::new();
            out.push(head);
            let mut k: usize = 0;
            while k < rest.len()
                invariant
                    k <= rest@.len(),
                    out@.len() == k + 1,
                    out@[0]@ == s@.take(first_dot(s@)),
                    forall|u: int| 0 <= u < k ==> #[trigger] out@[u + 1]@ == split_dots(
                        s@.skip(first_dot(s@) + 1),
                    )[u],
                    rest@.len() == split_dots(s@.skip(first_dot(s@) + 1)).len(),
                    forall|u: int| 0 <= u < rest@.len() ==> #[trigger] rest@[u]@ == split_dots(
                        s@.skip(first_dot(s@) + 1),
                    )[u],
                decreases rest@.len() - k,
            {
                // Entries move over one by one; a fresh vector per segment
                // keeps the borrows simple.
                let mut seg: Vec<char> = Vec::new();
                let src = &rest[k];
                let mut w: usize = 0;
                while w < src.len()
                    invariant
                        w <= src@.len(),
                        seg@ =~= src@.take(w as int),
                    decreases src@.len() - w,
                {
                    seg.push(src[w]);
                    proof {
                        assert(seg@ =~= src@.take(w + 1));
                    }
                    w += 1;
                }
                proof {
                    assert(seg@ =~= src@);
                }
                out.push(seg);
                k += 1;
            }
            proof {
                let full = split_dots(s@);
                assert(full == seq![s@.take(d as int)] + split_dots(s@.skip(d + 1)));
                assert(forall|u: int|
                    0 <= u < rest@.len() ==> #[trigger] full[u + 1] == split_dots(
                        s@.skip(d + 1),
                    )[u]);
                assert forall|u: int| 0 <= u < out@.len() implies #[trigger] out@[u]@ == full[
                    u
                ] by {
                    if u >= 1 {
                        assert(out@[(u - 1) + 1]@ == split_dots(s@.skip(d + 1))[u - 1]);
                    }
                }
            }
            out
        }
        None => {
            let mut whole: Vec<char> = Vec::new();
            let mut j: usize = 0;
            while j < s.len()
                invariant
                    j <= s@.len(),
                    whole@ =~= s@.take(j as int),
                decreases s@.len() - j,
            {
                whole.push(s[j]);
                proof {
                    assert(whole@ =~= s@.take(j + 1));
                }
                j += 1;
            }
            proof {
                assert(whole@ =~= s@);
            }
            let mut out: Vec<Vec<char>> = Vec::new();
            out.push(whole);
            proof {
                assert(split_dots(s@) == seq![s@]);
            }
            out
        }
    }
}

/// The mathematical integers of a vector of parsed segments.
pub open spec fn ints_of(s: Seq<u32>) -> Seq<int> {
    Seq::new(
        s.len(),
        |i: int| if 0 <= i < s.len() {
            s[i] as int
        } else {
            0
        },
    )
}

/// Parse every segment of an already-split version string.
fn parse_segments(parts: &Vec<Vec<char>>) -> (r: Option<Vec<u32>>)
    ensures
        match r {
            Some(v) => spec_parse_segments(views_of_charvecs(parts@)) == Some(ints_of(v@)),
            None => spec_parse_segments(views_of_charvecs(parts@)) is None,
        },
{
    let ghost gp = views_of_charvecs(parts@);
    let mut out: Vec<u32> = Vec::new();
    let n = parts.len();
    let mut i: usize = 0;
    while i < n
        invariant
            i <= n,
            n == gp.len(),
            gp == views_of_charvecs(parts@),
            spec_parse_segments(gp.take(i as int)) == Some(ints_of(out@)),
            out@.len() == i,
        decreases n - i,
    {
        proof {
            assert(gp.take(i + 1).drop_last() =~= gp.take(i as int));
            assert(gp.take(i + 1).last() == gp[i as int]);
            assert(gp[i as int] == parts@[i as int]@);
        }
        let ghost before = out@;
        match parse_u32_chars(parts[i].as_slice()) {
            Some(v) => {
                out.push(v);
                proof {
                    assert(ints_of(out@) =~= ints_of(before).push(v as int));
                }
            }
            None => {
                proof {
                    lemma_parse_segments_none(gp, i as int);
                }
                return None;
            }
        }
        i += 1;
    }
    proof {
        assert(gp.take(n as int) =~= gp);
    }
    Some(out)
}

/// The views of a vector of character vectors.
pub open spec fn views_of_charvecs(s: Seq<Vec<char>>) -> Seq<Seq<char>> {
    Seq::new(
        s.len(),
        |i: int| if 0 <= i < s.len() {
            s[i]@
        } else {
            Seq::<char>::empty()
        },
    )
}

/// One unparseable segment makes the whole parse fail.
proof fn lemma_parse_segments_none(parts: Seq<Seq<char>>, j: int)
    requires
        0 <= j < parts.len(),
        spec_parse_u32(parts[j]) is None,
    ensures
        spec_parse_segments(parts) is None,
    decreases parts.len(),
{
    if j < parts.len() - 1 {
        assert(parts.drop_last()[j] == parts[j]);
        lemma_parse_segments_none(parts.drop_last(), j);
    }
}

/// Compare two dotted version strings per segment, the shorter padded
/// with zeros: `Ok(true)` iff `new_version` is greater at the first
/// differing segment; `ParseError` iff either string has a segment that
/// is not an unsigned 32-bit number.
pub fn compare_version(new_version: &str, current_version: &str) -> (r: Result<bool, AppError>)
    ensures
        match r {
            Ok(b) => spec_version_gt(new_version@, current_version@) == Some(b),
            Err(e) => spec_version_gt(new_version@, current_version@) is None && e is ParseError,
        },
{
    let ac = str_chars(new_version);
    let bc = str_chars(current_version);
    let aparts = split_dots_chars(ac.as_slice());
    let bparts = split_dots_chars(bc.as_slice());
    proof {
        assert(views_of_charvecs(aparts@) =~= split_dots(new_version@));
        assert(views_of_charvecs(bparts@) =~= split_dots(current_version@));
    }
    let xs = match parse_segments(&aparts) {
        Some(v) => v,
        None => {
            return Err(AppError::ParseError("Invalid version segment".to_owned()));
        }
    };
    let ys = match parse_segments(&bparts) {
        Some(v) => v,
        None => {
            return Err(AppError::ParseError("Invalid version segment".to_owned()));
        }
    };
    let ghost gx = ints_of(xs@);
    let ghost gy = ints_of(ys@);
    proof {
        assert(spec_version_gt(new_version@, current_version@) == Some(spec_gt_from(gx, gy, 0)));
    }
    let max_len = if xs.len() >= ys.len() {
        xs.len()
    } else {
        ys.len()
    };
    let mut i: usize = 0;
    while i < max_len
        invariant
            i <= max_len,
            max_len == if gx.len() >= gy.len() {
                gx.len()
            } else {
                gy.len()
            },
            xs@.len() == gx.len(),
            ys@.len() == gy.len(),
            gx == ints_of(xs@),
            gy == ints_of(ys@),
            spec_version_gt(new_version@, current_version@) == Some(spec_gt_from(gx, gy, 0)),
            spec_gt_from(gx, gy, 0) == spec_gt_from(gx, gy, i as int),
        decreases max_len - i,
    {
        let a = if i < xs.len() {
            xs[i]
        } else {
            0
        };
        let b = if i < ys.len() {
            ys[i]
        } else {
            0
        };
        if a > b {
            return Ok(true);
        } else if a < b {
            return Ok(false);
        }
        i += 1;
    }
    Ok(false)
}

/// The version manifest: what the engine knows of the deployed app, data
/// and asset versions of one region.
#[derive(Debug, PartialEq)]
pub struct VersionInfo {
    pub app_version: String,
    pub app_hash: String,
    pub data_version: String,
    pub asset_version: String,
    pub asset_hash: String,
    pub cdn_version: i64,
}

/// The string at `key` of an object model, empty when absent or not a
/// string.
pub open spec fn str_field(o: Seq<(Seq<char>, JModel)>, key: Seq<char>) -> Seq<char> {
    match obj_get(o, key) {
        Some(JModel::Str(s)) => s,
        _ => Seq::empty(),
    }
}

/// The integer at `key` of an object model, `0` when absent or not an
/// integer in signed 64-bit range.
pub open spec fn int_field(o: Seq<(Seq<char>, JModel)>, key: Seq<char>) -> int {
    match obj_get(o, key) {
        Some(v) => if v is Int && i64::MIN <= v->Int_0 <= i64::MAX {
            v->Int_0
        } else {
            0
        },
        None => 0,
    }
}

impl VersionInfo {
    /// The manifest as a record of its six field views.
    pub open spec fn spec_fields(&self) -> (
        Seq<char>,
        Seq<char>,
        Seq<char>,
        Seq<char>,
        Seq<char>,
        int,
    ) {
        (
            self.app_version@,
            self.app_hash@,
            self.data_version@,
            self.asset_version@,
            self.asset_hash@,
            self.cdn_version as int,
        )
    }

    /// Read a manifest from a parsed JSON document, defaulting every
    /// missing or differently-typed field to the empty string or `0`.
    pub fn from_json(doc: &JsonMap) -> (r: VersionInfo)
        ensures
            r.app_version@ == str_field(doc@, "appVersion"@),
            r.app_hash@ == str_field(doc@, "appHash"@),
            r.data_version@ == str_field(doc@, "dataVersion"@),
            r.asset_version@ == str_field(doc@, "assetVersion"@),
            r.asset_hash@ == str_field(doc@, "assetHash"@),
            r.cdn_version as int == int_field(doc@, "cdnVersion"@),
    {
        VersionInfo {
            app_version: get_str_field(doc, "appVersion"),
            app_hash: get_str_field(doc, "appHash"),
            data_version: get_str_field(doc, "dataVersion"),
            asset_version: get_str_field(doc, "assetVersion"),
            asset_hash: get_str_field(doc, "assetHash"),
            cdn_version: get_int_field(doc, "cdnVersion"),
        }
    }

    /// Write the manifest's six fields into an existing JSON document,
    /// leaving every other key as it stands.
    pub fn merge_into(&self, doc: &JsonMap) -> (r: JsonMap)
        ensures
            r@ == obj_insert(
                obj_insert(
                    obj_insert(
                        obj_insert(
                            obj_insert(
                                obj_insert(doc@, "appVersion"@, JModel::Str(self.app_version@)),
                                "appHash"@,
                                JModel::Str(self.app_hash@),
                            ),
                            "dataVersion"@,
                            JModel::Str(self.data_version@),
                        ),
                        "assetVersion"@,
                        JModel::Str(self.asset_version@),
                    ),
                    "assetHash"@,
                    JModel::Str(self.asset_hash@),
                ),
                "cdnVersion"@,
                JModel::Int(self.cdn_version as int),
            ),
    {
        let mut out = doc.dup();
        out.insert("appVersion".to_owned(), JsonVal::Str(self.app_version.clone()));
        out.insert("appHash".to_owned(), JsonVal::Str(self.app_hash.clone()));
        out.insert("dataVersion".to_owned(), JsonVal::Str(self.data_version.clone()));
        out.insert("assetVersion".to_owned(), JsonVal::Str(self.asset_version.clone()));
        out.insert("assetHash".to_owned(), JsonVal::Str(self.asset_hash.clone()));
        out.insert("cdnVersion".to_owned(), JsonVal::Int(self.cdn_version));
        out
    }
}

/// Executable read of a string field with the empty default.
pub fn get_str_field(doc: &JsonMap, key: &str) -> (r: String)
    ensures
        r@ == str_field(doc@, key@),
{
    match doc.get(key) {
        Some(v) => match v.as_str() {
            Some(s) => s.clone(),
            None => {
                let e = String::new();
                proof {
                    assert(e@ =~= Seq::<char>::empty());
                }
                e
            }
        },
        None => {
            let e = String::new();
            proof {
                assert(e@ =~= Seq::<char>::empty());
            }
            e
        }
    }
}

/// Executable read of an integer field with the zero default.
pub fn get_int_field(doc: &JsonMap, key: &str) -> (r: i64)
    ensures
        r as int == int_field(doc@, key@),
{
    match doc.get(key) {
        Some(v) => match v.as_i64() {
            Some(n) => n,
            None => 0,
        },
        None => 0,
    }
}

/// The auxiliary app version/hash pair synchronised independently of the
/// main manifest.
#[derive(Debug, PartialEq)]
pub struct AppInfo {
    pub app_version: String,
    pub app_hash: String,
}

impl AppInfo {
    /// Read an app-info pair from a parsed JSON document: defined only
    /// when both fields are strings.
    pub fn from_json(doc: &JsonMap) -> (r: Option<AppInfo>)
        ensures
            match r {
                Some(info) => {
                    &&& obj_get(doc@, "appVersion"@) == Some(JModel::Str(info.app_version@))
                    &&& obj_get(doc@, "appHash"@) == Some(JModel::Str(info.app_hash@))
                },
                None => !(obj_get(doc@, "appVersion"@) matches Some(JModel::Str(_)) && obj_get(
                    doc@,
                    "appHash"@,
                ) matches Some(JModel::Str(_))),
            },
    {
        let v = match doc.get("appVersion") {
            Some(v) => match v.as_str() {
                Some(s) => s.clone(),
                None => {
                    return None;
                }
            },
            None => {
                return None;
            }
        };
        let h = match doc.get("appHash") {
            Some(v) => match v.as_str() {
                Some(s) => s.clone(),
                None => {
                    return None;
                }
            },
            None => {
                return None;
            }
        };
        Some(AppInfo { app_version: v, app_hash: h })
    }

    /// Whether a fetched pair differs from the current one, so the
    /// manifest must be rewritten.
    pub fn differs_from(&self, current: &AppInfo) -> (r: bool)
        ensures
            r == (self.app_version@ != current.app_version@ || self.app_hash@
                != current.app_hash@),
    {
        !self.app_version.eq(&current.app_version) || !self.app_hash.eq(&current.app_hash)
    }

    /// Rewrite only the two app fields of a manifest document, leaving
    /// every other key as it stands.
    pub fn merge_into(&self, doc: &JsonMap) -> (r: JsonMap)
        ensures
            r@ == obj_insert(
                obj_insert(doc@, "appVersion"@, JModel::Str(self.app_version@)),
                "appHash"@,
                JModel::Str(self.app_hash@),
            ),
    {
        let mut out = doc.dup();
        out.insert("appVersion".to_owned(), JsonVal::Str(self.app_version.clone()));
        out.insert("appHash".to_owned(), JsonVal::Str(self.app_hash.clone()));
        out
    }
}

} // verus!
