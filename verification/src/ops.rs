//! Regional operations: the region tag and its dialects, path helpers,
//! the hot-reload debounce, the scheduler's job planning, image-path
//! validation, and the synchronisation tasks' decisions.

use vstd::prelude::*;

use crate::account::LoginResponse;
use crate::trusted::{chars_to_string, str_chars};
use crate::version::{spec_version_gt, VersionInfo};

verus! {

/// The five upstream regions.
#[derive(Debug, Clone, Copy, PartialEq, Eq, Hash, Structural)]
pub enum ServerRegion {
    Jp,
    En,
    Tw,
    Kr,
    Cn,
}

/// ASCII lowercasing of a character sequence; other characters stay.
pub open spec fn ascii_lower(s: Seq<char>) -> Seq<char> {
    Seq::new(
        s.len(),
        |i: int| if 0 <= i < s.len() {
            lower_char(s[i])
        } else {
            ' '
        },
    )
}

/// ASCII lowercasing of one character.
pub open spec fn lower_char(c: char) -> char {
    if 'A' <= c && c <= 'Z' {
        ((c as u8) + 32) as char
    } else {
        c
    }
}

/// Lowercase the ASCII letters of a character vector.
#[verifier::loop_isolation(false)]
pub fn to_lower_chars(s: &Vec<char>) -> (r: Vec<char>)
    ensures
        r@ =~= ascii_lower(s@),
{
    let mut out: Vec<char> = Vec::new();
    let mut i: usize = 0;
    while i < s.len()
        invariant
            i <= s@.len(),
            out@.len() == i,
            forall|j: int| 0 <= j < i ==> out@[j] == lower_char(s@[j]),
        decreases s@.len() - i,
    {
        let c = s[i];
        if 'A' <= c && c <= 'Z' {
            out.push(((c as u8) + 32) as char);
        } else {
            out.push(c);
        }
        i += 1;
    }
    out
}

/// Whether two character vectors hold the same characters.
#[verifier::loop_isolation(false)]
pub fn chars_eq(a: &Vec<char>, b: &Vec<char>) -> (r: bool)
    ensures
        r == (a@ == b@),
{
    if a.len() != b.len() {
        return false;
    }
    let mut i: usize = 0;
    while i < a.len()
        invariant
            i <= a@.len(),
            a@.len() == b@.len(),
            forall|j: int| 0 <= j < i ==> a@[j] == b@[j],
        decreases a@.len() - i,
    {
        if a[i] != b[i] {
            return false;
        }
        i += 1;
    }
    proof {
        assert(a@ =~= b@);
    }
    true
}

/// The region a name denotes, after ASCII lowercasing.
pub open spec fn spec_region_of(s: Seq<char>) -> Option<ServerRegion> {
    let t = ascii_lower(s);
    if t == "jp"@ {
        Some(ServerRegion::Jp)
    } else if t == "en"@ {
        Some(ServerRegion::En)
    } else if t == "tw"@ {
        Some(ServerRegion::Tw)
    } else if t == "kr"@ {
        Some(ServerRegion::Kr)
    } else if t == "cn"@ {
        Some(ServerRegion::Cn)
    } else {
        None
    }
}

impl ServerRegion {
    /// The canonical lowercase name of the region.
    pub open spec fn spec_str(&self) -> Seq<char> {
        match self {
            ServerRegion::Jp => "jp"@,
            ServerRegion::En => "en"@,
            ServerRegion::Tw => "tw"@,
            ServerRegion::Kr => "kr"@,
            ServerRegion::Cn => "cn"@,
        }
    }

    /// The canonical lowercase name of the region.
    pub fn as_str(&self) -> (r: &'static str)
        ensures
            r@ == self.spec_str(),
    {
        match self {
            ServerRegion::Jp => "jp",
            ServerRegion::En => "en",
            ServerRegion::Tw => "tw",
            ServerRegion::Kr => "kr",
            ServerRegion::Cn => "cn",
        }
    }

    /// Parse a region name, case-insensitively over ASCII letters.
    pub fn from_str(s: &str) -> (r: Option<ServerRegion>)
        ensures
            r == spec_region_of(s@),
    {
        let chars = str_chars(s);
        let lowered = to_lower_chars(&chars);
        if chars_eq(&lowered, &str_chars("jp")) {
            Some(ServerRegion::Jp)
        } else if chars_eq(&lowered, &str_chars("en")) {
            Some(ServerRegion::En)
        } else if chars_eq(&lowered, &str_chars("tw")) {
            Some(ServerRegion::Tw)
        } else if chars_eq(&lowered, &str_chars("kr")) {
            Some(ServerRegion::Kr)
        } else if chars_eq(&lowered, &str_chars("cn")) {
            Some(ServerRegion::Cn)
        } else {
            None
        }
    }

    /// Whether the region speaks the Colorful-Palette dialect (`jp`, `en`)
    /// rather than the Nuverse one (`tw`, `kr`, `cn`).
    pub fn is_cp_server(&self) -> (r: bool)
        ensures
            r == (self is Jp || self is En),
    {
        matches!(self, ServerRegion::Jp | ServerRegion::En)
    }
}

/// The first non-empty `/`-separated segment of a path, ASCII-lowercased;
/// empty when the path has no segment.
pub open spec fn spec_server_of_path(s: Seq<char>) -> Seq<char> {
    let start = first_non_slash(s);
    if start < 0 {
        Seq::empty()
    } else {
        let end = next_slash(s, start);
        ascii_lower(s.subrange(start, end))
    }
}

/// Index of the first character that is not `/`, or `-1`.
pub open spec fn first_non_slash(s: Seq<char>) -> int
    decreases s.len(),
{
    if s.len() == 0 {
        -1
    } else if s[0] != '/' {
        0
    } else {
        let r = first_non_slash(s.skip(1));
        if r < 0 {
            -1
        } else {
            r + 1
        }
    }
}

/// Index of the first `/` at or after `from`, or the length.
pub open spec fn next_slash(s: Seq<char>, from: int) -> int
    decreases s.len() - from,
{
    if from < 0 || from >= s.len() {
        s.len() as int
    } else if s[from] == '/' {
        from
    } else {
        next_slash(s, from + 1)
    }
}

/// `first_non_slash` finds the first non-slash, with only slashes before.
proof fn lemma_first_non_slash(s: Seq<char>)
    ensures
        first_non_slash(s) >= 0 ==> {
            &&& first_non_slash(s) < s.len()
            &&& s[first_non_slash(s)] != '/'
            &&& forall|j: int| 0 <= j < first_non_slash(s) ==> s[j] == '/'
        },
        first_non_slash(s) == -1 ==> forall|j: int| 0 <= j < s.len() ==> s[j] == '/',
        first_non_slash(s) >= -1,
    decreases s.len(),
{
    if s.len() > 0 && s[0] == '/' {
        lemma_first_non_slash(s.skip(1));
        assert(forall|j: int| 0 < j < s.len() ==> s.skip(1)[j - 1] == s[j]);
    }
}

/// `next_slash` finds the first slash at or after `from`.
proof fn lemma_next_slash(s: Seq<char>, from: int)
    requires
        0 <= from <= s.len(),
    ensures
        from <= next_slash(s, from) <= s.len(),
        next_slash(s, from) < s.len() ==> s[next_slash(s, from)] == '/',
        forall|j: int| from <= j < next_slash(s, from) ==> s[j] != '/',
    decreases s.len() - from,
{
    if from < s.len() && s[from] != '/' {
        lemma_next_slash(s, from + 1);
    }
}

/// The region name embedded in a request path: its first non-empty
/// segment, ASCII-lowercased.
#[verifier::loop_isolation(false)]
pub fn extract_server_from_path(path: &str) -> (r: String)
    ensures
        r@ == spec_server_of_path(path@),
{
    let chars = str_chars(path);
    proof {
        lemma_first_non_slash(path@);
    }
    let n = chars.len();
    let mut start: usize = 0;
    while start < n && chars[start] == '/'
        invariant
            start <= n,
            forall|j: int| 0 <= j < start ==> chars@[j] == '/',
        decreases n - start,
    {
        start += 1;
    }
    if start == n {
        proof {
            if first_non_slash(path@) >= 0 {
                assert(path@[first_non_slash(path@)] != '/');
            }
        }
        let e = String::new();
        proof {
            assert(e@ =~= Seq::<char>::empty());
        }
        return e;
    }
    proof {
        assert(first_non_slash(path@) == start as int) by {
            if first_non_slash(path@) < start as int && first_non_slash(path@) >= 0 {
                assert(path@[first_non_slash(path@)] != '/');
            }
            if first_non_slash(path@) == -1 {
                assert(path@[start as int] == '/');
            }
            if first_non_slash(path@) > start as int {
                assert(path@[start as int] == '/');
            }
        }
        lemma_next_slash(path@, start as int);
    }
    let mut end: usize = start;
    while end < n && chars[end] != '/'
        invariant
            start <= end <= n,
            forall|j: int| start <= j < end ==> chars@[j] != '/',
        decreases n - end,
    {
        end += 1;
    }
    proof {
        assert(next_slash(path@, start as int) == end as int) by {
            let ns = next_slash(path@, start as int);
            if ns < end as int {
                assert(path@[ns] == '/');
            }
            if ns > end as int {
                assert(end < n ==> path@[end as int] != '/');
            }
        }
    }
    let mut seg: Vec<char> = Vec::new();
    let mut i: usize = start;
    while i < end
        invariant
            start <= i <= end,
            end <= n,
            seg@ =~= path@.subrange(start as int, i as int),
        decreases end - i,
    {
        seg.push(chars[i]);
        proof {
            assert(seg@ =~= path@.subrange(start as int, i + 1));
        }
        i += 1;
    }
    let lowered = to_lower_chars(&seg);
    let r = chars_to_string(&lowered);
    proof {
        assert(r@ =~= spec_server_of_path(path@));
    }
    r
}

/// Whether an event at `now_ms` triggers a reload: always before the
/// first reload, and afterwards only once the window has fully passed.
pub open spec fn spec_debounce_fires(last_ms: Option<u64>, window_ms: u64, now_ms: u64) -> bool {
    match last_ms {
        Some(last) => now_ms >= last + window_ms,
        None => true,
    }
}

/// The debounce guard of the account-file watcher: the first event fires;
/// after a reload, further events fire only when at least the window has
/// passed since it.
pub struct ReloadDebouncer {
    pub last_reload_ms: Option<u64>,
    pub window_ms: u64,
}

impl ReloadDebouncer {
    /// A fresh debouncer: no reload has happened yet.
    pub fn new(window_ms: u64) -> (r: ReloadDebouncer)
        ensures
            r.last_reload_ms is None,
            r.window_ms == window_ms,
    {
        ReloadDebouncer { last_reload_ms: None, window_ms }
    }

    /// Handle one watcher event at `now_ms`: fires (and resets the clock)
    /// exactly when no reload happened yet or the window has fully passed.
    pub fn on_event(&mut self, now_ms: u64) -> (r: bool)
        requires
            match old(self).last_reload_ms {
                Some(last) => now_ms >= last && last + old(self).window_ms <= u64::MAX,
                None => true,
            },
        ensures
            r == spec_debounce_fires(old(self).last_reload_ms, old(self).window_ms, now_ms),
            final(self).window_ms == old(self).window_ms,
            final(self).last_reload_ms == if r {
                Some(now_ms)
            } else {
                old(self).last_reload_ms
            },
    {
        let fires = match self.last_reload_ms {
            Some(last) => now_ms - last >= self.window_ms,
            None => true,
        };
        if fires {
            self.last_reload_ms = Some(now_ms);
        }
        fires
    }
}

/// Two watcher events within one window trigger exactly one reload: after
/// a reload at `t1`, any event before `t1 + window` does not fire.
pub proof fn lemma_debounce_single_fire(last: Option<u64>, window: u64, t1: u64, t2: u64)
    requires
        spec_debounce_fires(last, window, t1),
        t1 <= t2,
        t2 < t1 + window,
    ensures
        !spec_debounce_fires(Some(t1), window, t2),
{
}

/// Whether the two image path parameters are acceptable for a region:
/// 64-character lowercase-hex names for the CP dialect, non-empty decimal
/// identifiers for Nuverse.
pub open spec fn spec_image_params_ok(is_cp: bool, p1: Seq<char>, p2: Seq<char>) -> bool {
    if is_cp {
        is_hex64(p1) && is_hex64(p2)
    } else {
        is_digits(p1) && is_digits(p2)
    }
}

/// A 64-character lowercase hexadecimal name.
pub open spec fn is_hex64(s: Seq<char>) -> bool {
    s.len() == 64 && forall|i: int|
        0 <= i < s.len() ==> ('0' <= #[trigger] s[i] <= '9' || 'a' <= s[i] <= 'f')
}

/// A non-empty run of decimal digits.
pub open spec fn is_digits(s: Seq<char>) -> bool {
    s.len() > 0 && forall|i: int| 0 <= i < s.len() ==> '0' <= #[trigger] s[i] <= '9'
}

/// Validate the two image path parameters per the region's dialect.
#[verifier::loop_isolation(false)]
pub fn validate_image_params(is_cp: bool, p1: &str, p2: &str) -> (r: bool)
    ensures
        r == spec_image_params_ok(is_cp, p1@, p2@),
{
    if is_cp {
        check_hex64(p1) && check_hex64(p2)
    } else {
        check_digits(p1) && check_digits(p2)
    }
}

/// Check one 64-character lowercase-hex parameter.
#[verifier::loop_isolation(false)]
fn check_hex64(s: &str) -> (r: bool)
    ensures
        r == is_hex64(s@),
{
    let chars = str_chars(s);
    if chars.len() != 64 {
        return false;
    }
    let mut i: usize = 0;
    while i < chars.len()
        invariant
            i <= chars@.len(),
            forall|j: int|
                0 <= j < i ==> ('0' <= #[trigger] chars@[j] <= '9' || 'a' <= chars@[j] <= 'f'),
        decreases chars@.len() - i,
    {
        let c = chars[i];
        if !(('0' <= c && c <= '9') || ('a' <= c && c <= 'f')) {
            return false;
        }
        i += 1;
    }
    true
}

/// Check one decimal-identifier parameter.
#[verifier::loop_isolation(false)]
fn check_digits(s: &str) -> (r: bool)
    ensures
        r == is_digits(s@),
{
    let chars = str_chars(s);
    if chars.len() == 0 {
        return false;
    }
    let mut i: usize = 0;
    while i < chars.len()
        invariant
            i <= chars@.len(),
            forall|j: int| 0 <= j < i ==> '0' <= #[trigger] chars@[j] <= '9',
        decreases chars@.len() - i,
    {
        let c = chars[i];
        if c < '0' || c > '9' {
            return false;
        }
        i += 1;
    }
    true
}

/// Whether the master and asset bundles need refreshing for a CP region:
/// per-component comparison of the data and asset versions, an
/// unparseable version counting as not newer.
pub fn check_cp_versions(login: &LoginResponse, current: &VersionInfo) -> (r: (bool, bool))
    ensures
        r.0 == match spec_version_gt(login.data_version@, current.data_version@) {
            Some(b) => b,
            None => false,
        },
        r.1 == match spec_version_gt(login.asset_version@, current.asset_version@) {
            Some(b) => b,
            None => false,
        },
{
    let need_master = match crate::version::compare_version(
        login.data_version.as_str(),
        current.data_version.as_str(),
    ) {
        Ok(b) => b,
        Err(_) => false,
    };
    let need_asset = match crate::version::compare_version(
        login.asset_version.as_str(),
        current.asset_version.as_str(),
    ) {
        Ok(b) => b,
        Err(_) => false,
    };
    (need_master, need_asset)
}

/// Whether the bundles need refreshing for a Nuverse region: both follow
/// the CDN version alone.
pub fn check_nuverse_versions(login: &LoginResponse, current: &VersionInfo) -> (r: (bool, bool))
    ensures
        r.0 == (login.cdn_version > current.cdn_version),
        r.1 == r.0,
{
    let need = login.cdn_version > current.cdn_version;
    (need, need)
}

/// One step of the asset-updater notification: a `409` means "try again
/// later", success or any other status is final, a transport failure
/// skips the endpoint.
#[derive(Debug, PartialEq, Eq, Structural)]
pub enum AssetUpdaterStep {
    RetryLater,
    Done,
    Skip,
}

/// Decide the next step from one notification attempt's outcome.
pub fn asset_updater_step(status: Option<u16>) -> (r: AssetUpdaterStep)
    ensures
        r == match status {
            Some(409u16) => AssetUpdaterStep::RetryLater,
            Some(_) => AssetUpdaterStep::Done,
            None => AssetUpdaterStep::Skip,
        },
{
    match status {
        Some(409) => AssetUpdaterStep::RetryLater,
        Some(_) => AssetUpdaterStep::Done,
        None => AssetUpdaterStep::Skip,
    }
}

/// Ensure a master-fragment path starts with exactly one leading slash.
#[verifier::loop_isolation(false)]
pub fn normalize_master_path(p: &str) -> (r: String)
    ensures
        p@.len() > 0 && p@[0] == '/' ==> r@ == p@,
        !(p@.len() > 0 && p@[0] == '/') ==> r@ == seq!['/'] + p@,
{
    let chars = str_chars(p);
    if chars.len() > 0 && chars[0] == '/' {
        let r = chars_to_string(&chars);
        r
    } else {
        let mut out: Vec<char> = Vec::new();
        out.push('/');
        let mut i: usize = 0;
        while i < chars.len()
            invariant
                i <= chars@.len(),
                out@ =~= seq!['/'] + p@.take(i as int),
            decreases chars@.len() - i,
        {
            out.push(chars[i]);
            proof {
                assert(out@ =~= seq!['/'] + p@.take(i + 1));
            }
            i += 1;
        }
        proof {
            assert(out@ =~= seq!['/'] + p@);
        }
        chars_to_string(&out)
    }
}

/// One scheduled job of a region.
#[derive(Debug, PartialEq)]
pub enum PlannedJob {
    CookieRefresh(String),
    MasterSync(String),
    AppHashSync(String),
}

/// The kind and cron of one planned job: `0` cookie refresh, `1` master
/// sync, `2` app-hash sync.
pub open spec fn job_model(j: PlannedJob) -> (int, Seq<char>) {
    match j {
        PlannedJob::CookieRefresh(c) => (0int, c@),
        PlannedJob::MasterSync(c) => (1int, c@),
        PlannedJob::AppHashSync(c) => (2int, c@),
    }
}

/// The models of a job list, element-wise.
pub open spec fn jobs_model(s: Seq<PlannedJob>) -> Seq<(int, Seq<char>)> {
    Seq::new(
        s.len(),
        |i: int| if 0 <= i < s.len() {
            job_model(s[i])
        } else {
            (0int, Seq::<char>::empty())
        },
    )
}

/// The jobs one region's configuration calls for.
pub open spec fn spec_planned_jobs(
    require_cookies: bool,
    has_cookie_helper: bool,
    enable_master_updater: bool,
    master_updater_cron: Seq<char>,
    enable_app_hash_updater: bool,
    app_hash_updater_cron: Seq<char>,
    has_apphash_sources: bool,
) -> Seq<(int, Seq<char>)> {
    let base = Seq::<(int, Seq<char>)>::empty();
    let a = if require_cookies && has_cookie_helper {
        base.push((0int, spec_cookie_cron()))
    } else {
        base
    };
    let b = if enable_master_updater && master_updater_cron.len() > 0 {
        a.push((1int, master_updater_cron))
    } else {
        a
    };
    if enable_app_hash_updater && app_hash_updater_cron.len() > 0 && has_apphash_sources {
        b.push((2int, app_hash_updater_cron))
    } else {
        b
    }
}

/// The jobs the scheduler registers for one region: a cookie refresh on
/// the fixed cron when the region requires cookies and has a helper; the
/// master sync when enabled with a non-empty cron; the app-hash sync when
/// enabled with a non-empty cron and at least one source.
pub fn plan_region_jobs(
    require_cookies: bool,
    has_cookie_helper: bool,
    enable_master_updater: bool,
    master_updater_cron: &str,
    enable_app_hash_updater: bool,
    app_hash_updater_cron: &str,
    has_apphash_sources: bool,
) -> (r: Vec<PlannedJob>)
    ensures
        jobs_model(r@) == spec_planned_jobs(
            require_cookies,
            has_cookie_helper,
            enable_master_updater,
            master_updater_cron@,
            enable_app_hash_updater,
            app_hash_updater_cron@,
            has_apphash_sources,
        ),
{
    let mut out: Vec<PlannedJob> = Vec::new();
    if require_cookies && has_cookie_helper {
        let cron = "0 0 */20 * * *".to_owned();
        proof {
            assert(cron@ == spec_cookie_cron());
        }
        out.push(PlannedJob::CookieRefresh(cron));
    }
    if enable_master_updater && !master_updater_cron.is_empty() {
        out.push(PlannedJob::MasterSync(master_updater_cron.to_owned()));
    }
    if enable_app_hash_updater && !app_hash_updater_cron.is_empty() && has_apphash_sources {
        out.push(PlannedJob::AppHashSync(app_hash_updater_cron.to_owned()));
    }
    proof {
        assert(jobs_model(out@) =~= spec_planned_jobs(
            require_cookies,
            has_cookie_helper,
            enable_master_updater,
            master_updater_cron@,
            enable_app_hash_updater,
            app_hash_updater_cron@,
            has_apphash_sources,
        ));
    }
    out
}

/// The fixed cron of the periodic cookie refresh: at minute zero of every
/// twentieth hour.
pub open spec fn spec_cookie_cron() -> Seq<char> {
    "0 0 */20 * * *"@
}

} // verus!
