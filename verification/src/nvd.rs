//! The decisions of the NVD download: which URLs to ask for, how long to
//! wait between and after requests, which CVEs to keep.
use vstd::prelude::*;

use crate::cpe::{high_or_critical, is_high_or_critical};
use crate::db::{Configuration, StoredCve, StoredDb};
use crate::error::Error;
use crate::text::{
    ascii_lowercase, ascii_uppercase, chars_of, contains, decimal, has_prefix, has_substring,
    is_ascii_digit, lower, push_decimal, push_str, starts_with, str_equal, string_of, trim,
    trimmed, upper,
};

verus! {

// ---------------------------------------------------------------------------
// Durations
// ---------------------------------------------------------------------------

/// The largest duration, in nanoseconds (`u64::MAX` seconds and 999999999
/// nanoseconds, as `std::time::Duration::MAX`).
pub open spec fn max_nanos() -> nat {
    (u64::MAX as nat) * 1_000_000_000 + 999_999_999
}

/// A span of time in nanoseconds, at most `max_nanos()`.
#[derive(Debug, Clone, Copy, PartialEq, Eq, Structural, PartialOrd, Ord, Hash)]
pub struct Duration {
    nanos: u128,
}

impl View for Duration {
    type V = nat;

    closed spec fn view(&self) -> nat {
        self.nanos as nat
    }
}

impl Duration {
    pub open spec fn wf(self) -> bool {
        self@ <= max_nanos()
    }

    pub fn zero() -> (d: Duration)
        ensures
            d@ == 0,
            d.wf(),
    {
        Duration { nanos: 0 }
    }

    pub fn from_secs(secs: u64) -> (d: Duration)
        ensures
            d@ == secs * 1_000_000_000,
            d.wf(),
    {
        Duration { nanos: (secs as u128) * 1_000_000_000 }
    }

    pub fn from_millis(ms: u64) -> (d: Duration)
        ensures
            d@ == ms * 1_000_000,
            d.wf(),
    {
        Duration { nanos: (ms as u128) * 1_000_000 }
    }

    /// `n` nanoseconds, capped at the largest duration.
    pub fn from_nanos(n: u128) -> (d: Duration)
        ensures
            d@ == if n <= max_nanos() {
                n as nat
            } else {
                max_nanos()
            },
            d.wf(),
    {
        let cap: u128 = 18_446_744_073_709_551_615u128 * 1_000_000_000 + 999_999_999;
        if n <= cap {
            Duration { nanos: n }
        } else {
            Duration { nanos: cap }
        }
    }

    pub fn as_nanos(&self) -> (n: u128)
        ensures
            n == self@,
    {
        self.nanos
    }

    /// Whole seconds.
    pub fn as_secs(&self) -> (s: u64)
        requires
            self.wf(),
        ensures
            s == self@ / 1_000_000_000,
    {
        (self.nanos / 1_000_000_000) as u64
    }

    /// Nanoseconds beyond the whole seconds.
    pub fn subsec_nanos(&self) -> (n: u32)
        ensures
            n == self@ % 1_000_000_000,
    {
        (self.nanos % 1_000_000_000) as u32
    }

    pub fn as_millis(&self) -> (ms: u128)
        ensures
            ms == self@ / 1_000_000,
    {
        self.nanos / 1_000_000
    }

    pub fn is_zero(&self) -> (b: bool)
        ensures
            b == (self@ == 0),
    {
        self.nanos == 0
    }

    /// `self - other`, or zero when `other` is longer.
    pub fn saturating_sub(self, other: Duration) -> (d: Duration)
        requires
            self.wf(),
        ensures
            d@ == if self@ >= other@ {
                (self@ - other@) as nat
            } else {
                0
            },
            d.wf(),
    {
        if self.nanos >= other.nanos {
            Duration { nanos: self.nanos - other.nanos }
        } else {
            Duration { nanos: 0 }
        }
    }

    /// `self * k`, capped at the largest duration.
    pub fn saturating_mul(self, k: u32) -> (d: Duration)
        requires
            self.wf(),
        ensures
            d@ == if self@ * k <= max_nanos() {
                (self@ * k) as nat
            } else {
                max_nanos()
            },
            d.wf(),
    {
        assert(self@ * k <= max_nanos() * 4294967295) by (nonlinear_arith)
            requires
                self@ <= max_nanos(),
                k <= 4294967295,
        ;
        Duration::from_nanos(self.nanos * (k as u128))
    }
}

/// The pause kept between two NVD requests: the NVD budget without an API
/// key is 5 requests per 30 s (6 s each), padded to 7.5 s.
pub fn default_min_interval() -> (d: Duration)
    ensures
        d@ == 7_500_000_000,
        d.wf(),
{
    Duration::from_millis(7500)
}

// ---------------------------------------------------------------------------
// URLs
// ---------------------------------------------------------------------------

pub const NVD_BASE: &'static str = "https://services.nvd.nist.gov/rest/json/cves/2.0";

pub const USER_AGENT: &'static str = "crityoink/0.1 (+https://github.com/alex-powell/crityoink)";

pub const RESULTS_PER_PAGE: u32 = 2000;

/// Number of query streams: NVD allows one severity filter per request.
pub const QUERY_STREAM_COUNT: usize = 5;

/// The query streams, in order: the severity parameter and its value.
pub open spec fn stream_of(i: int) -> (Seq<char>, Seq<char>) {
    if i == 0 {
        ("cvssV3Severity"@, "CRITICAL"@)
    } else if i == 1 {
        ("cvssV3Severity"@, "HIGH"@)
    } else if i == 2 {
        ("cvssV4Severity"@, "CRITICAL"@)
    } else if i == 3 {
        ("cvssV4Severity"@, "HIGH"@)
    } else {
        ("cvssV2Severity"@, "HIGH"@)
    }
}

/// The `i`-th query stream (no inventory CPE is ever part of one).
pub fn query_stream(i: usize) -> (s: (&'static str, &'static str))
    requires
        i < QUERY_STREAM_COUNT,
    ensures
        (s.0@, s.1@) == stream_of(i as int),
{
    if i == 0 {
        ("cvssV3Severity", "CRITICAL")
    } else if i == 1 {
        ("cvssV3Severity", "HIGH")
    } else if i == 2 {
        ("cvssV4Severity", "CRITICAL")
    } else if i == 3 {
        ("cvssV4Severity", "HIGH")
    } else {
        ("cvssV2Severity", "HIGH")
    }
}

/// The NVD URL of one page of one severity stream.
pub open spec fn url_for(param: Seq<char>, value: Seq<char>, start: nat, per_page: nat) -> Seq<
    char,
> {
    NVD_BASE@ + "?"@ + param + "="@ + value + "&noRejected&startIndex="@ + decimal(start)
        + "&resultsPerPage="@ + decimal(per_page)
}

pub fn build_url(sev_param: &str, sev_value: &str, start_index: u32, results_per_page: u32) -> (url:
    String)
    ensures
        url@ == url_for(sev_param@, sev_value@, start_index as nat, results_per_page as nat),
{
    let mut url = NVD_BASE.to_owned();
    push_str(&mut url, "?");
    push_str(&mut url, sev_param);
    push_str(&mut url, "=");
    push_str(&mut url, sev_value);
    push_str(&mut url, "&noRejected&startIndex=");
    push_decimal(&mut url, start_index as u64);
    push_str(&mut url, "&resultsPerPage=");
    push_decimal(&mut url, results_per_page as u64);
    assert(url@ =~= url_for(sev_param@, sev_value@, start_index as nat, results_per_page as nat));
    url
}

/// The URL carries none of the query parameters through which a CPE or
/// keyword would be sent (`cpeName=`, `keywordSearch=`,
/// `virtualMatchString=`, `keyword=`), in any case.
pub open spec fn inventory_free(url: Seq<char>) -> bool {
    let l = lower(url);
    &&& !contains(l, "cpename="@)
    &&& !contains(l, "keywordsearch="@)
    &&& !contains(l, "virtualmatchstring="@)
    &&& !contains(l, "keyword="@)
}

/// Right before every `=` stands `y`, `x`, or `ge`.
spec fn eq_guarded(s: Seq<char>) -> bool {
    forall|k: int|
        0 <= k < s.len() && #[trigger] s[k] == '=' ==> 2 <= k && (s[k - 1] == 'y' || s[k - 1] == 'x'
            || (s[k - 1] == 'e' && s[k - 2] == 'g'))
}

proof fn lemma_eq_guarded_concat(a: Seq<char>, b: Seq<char>)
    requires
        eq_guarded(a),
        eq_guarded(b),
    ensures
        eq_guarded(a + b),
{
    assert forall|k: int| 0 <= k < (a + b).len() && #[trigger] (a + b)[k] == '=' implies 2 <= k && (
    (a + b)[k - 1] == 'y' || (a + b)[k - 1] == 'x' || ((a + b)[k - 1] == 'e' && (a + b)[k - 2]
        == 'g')) by {
        if k < a.len() {
            assert(a[k] == '=');
        } else {
            assert(b[k - a.len()] == '=');
        }
    }
}

proof fn lemma_lower_concat(a: Seq<char>, b: Seq<char>)
    ensures
        lower(a + b) == lower(a) + lower(b),
{
    assert(lower(a + b) =~= lower(a) + lower(b));
}

proof fn lemma_decimal_digits(n: nat)
    ensures
        forall|k: int| 0 <= k < decimal(n).len() ==> is_ascii_digit(#[trigger] decimal(n)[k]),
    decreases n,
{
    if n >= 10 {
        lemma_decimal_digits(n / 10);
        let d = decimal(n);
        assert forall|k: int| 0 <= k < d.len() implies is_ascii_digit(#[trigger] d[k]) by {
            if k < d.len() - 1 {
                assert(d[k] == decimal(n / 10)[k]);
            }
        }
    }
}

proof fn lemma_lower_decimal_guarded(n: nat)
    ensures
        eq_guarded(lower(decimal(n))),
{
    lemma_decimal_digits(n);
    let l = lower(decimal(n));
    assert forall|k: int| 0 <= k < l.len() implies #[trigger] l[k] != '=' by {
        assert(is_ascii_digit(decimal(n)[k]));
    }
}

proof fn lemma_guarded_excludes(s: Seq<char>)
    requires
        eq_guarded(s),
    ensures
        !contains(s, "cpename="@),
        !contains(s, "keywordsearch="@),
        !contains(s, "virtualmatchstring="@),
        !contains(s, "keyword="@),
{
    reveal_strlit("cpename=");
    reveal_strlit("keywordsearch=");
    reveal_strlit("virtualmatchstring=");
    reveal_strlit("keyword=");
    if contains(s, "cpename="@) {
        let i = choose|i: int| 0 <= i && i + "cpename="@.len() <= s.len() && #[trigger] s.subrange(i, i + "cpename="@.len()) == "cpename="@;
        assert(s[i + 7] == s.subrange(i, i + 8)[7]);
        assert(s[i + 6] == s.subrange(i, i + 8)[6]);
        assert(s[i + 5] == s.subrange(i, i + 8)[5]);
    }
    if contains(s, "keywordsearch="@) {
        let i = choose|i: int| 0 <= i && i + "keywordsearch="@.len() <= s.len() && #[trigger] s.subrange(i, i + "keywordsearch="@.len()) == "keywordsearch="@;
        assert(s[i + 13] == s.subrange(i, i + 14)[13]);
        assert(s[i + 12] == s.subrange(i, i + 14)[12]);
    }
    if contains(s, "virtualmatchstring="@) {
        let i = choose|i: int| 0 <= i && i + "virtualmatchstring="@.len() <= s.len() && #[trigger] s.subrange(i, i + "virtualmatchstring="@.len()) == "virtualmatchstring="@;
        assert(s[i + 18] == s.subrange(i, i + 19)[18]);
        assert(s[i + 17] == s.subrange(i, i + 19)[17]);
    }
    if contains(s, "keyword="@) {
        let i = choose|i: int| 0 <= i && i + "keyword="@.len() <= s.len() && #[trigger] s.subrange(i, i + "keyword="@.len()) == "keyword="@;
        assert(s[i + 7] == s.subrange(i, i + 8)[7]);
        assert(s[i + 6] == s.subrange(i, i + 8)[6]);
    }
}

proof fn lemma_param_guarded(i: int)
    requires
        0 <= i < QUERY_STREAM_COUNT,
    ensures
        eq_guarded(lower(stream_of(i).0 + "="@)),
        eq_guarded(lower(stream_of(i).1 + "&noRejected&startIndex="@)),
{
    reveal_strlit("cvssV3Severity");
    reveal_strlit("cvssV4Severity");
    reveal_strlit("cvssV2Severity");
    reveal_strlit("CRITICAL");
    reveal_strlit("HIGH");
    reveal_strlit("=");
    reveal_strlit("&noRejected&startIndex=");
    let p = lower(stream_of(i).0 + "="@);
    let v = lower(stream_of(i).1 + "&noRejected&startIndex="@);
    assert(eq_guarded(p));
    assert(eq_guarded(v));
}

/// Every URL of the download leaves out the inventory: it carries none of
/// the parameters through which a CPE or keyword would be sent.
pub proof fn stream_urls_inventory_free(i: int, start: nat, per_page: nat)
    requires
        0 <= i < QUERY_STREAM_COUNT,
    ensures
        inventory_free(url_for(stream_of(i).0, stream_of(i).1, start, per_page)),
{
    let p = stream_of(i).0;
    let v = stream_of(i).1;
    let g1 = NVD_BASE@ + "?"@;
    let g2 = p + "="@;
    let g3 = v + "&noRejected&startIndex="@;
    let g4 = decimal(start);
    let g5 = "&resultsPerPage="@;
    let g6 = decimal(per_page);
    assert(url_for(p, v, start, per_page) =~= g1 + g2 + g3 + g4 + g5 + g6);
    reveal_strlit("https://services.nvd.nist.gov/rest/json/cves/2.0");
    reveal_strlit("?");
    reveal_strlit("&resultsPerPage=");
    assert(eq_guarded(lower(g1)));
    assert(eq_guarded(lower(g5)));
    lemma_param_guarded(i);
    lemma_lower_decimal_guarded(start);
    lemma_lower_decimal_guarded(per_page);
    lemma_lower_concat(g1, g2);
    lemma_lower_concat(g1 + g2, g3);
    lemma_lower_concat(g1 + g2 + g3, g4);
    lemma_lower_concat(g1 + g2 + g3 + g4, g5);
    lemma_lower_concat(g1 + g2 + g3 + g4 + g5, g6);
    lemma_eq_guarded_concat(lower(g1), lower(g2));
    lemma_eq_guarded_concat(lower(g1) + lower(g2), lower(g3));
    lemma_eq_guarded_concat(lower(g1) + lower(g2) + lower(g3), lower(g4));
    lemma_eq_guarded_concat(lower(g1) + lower(g2) + lower(g3) + lower(g4), lower(g5));
    lemma_eq_guarded_concat(lower(g1) + lower(g2) + lower(g3) + lower(g4) + lower(g5), lower(g6));
    lemma_guarded_excludes(lower(url_for(p, v, start, per_page)));
}

pub fn url_is_inventory_free(url: &str) -> (b: bool)
    ensures
        b == inventory_free(url@),
{
    let lower_url = ascii_lowercase(url);
    let l = lower_url.as_str();
    !has_substring(l, "cpename=") && !has_substring(l, "keywordsearch=") && !has_substring(
        l,
        "virtualmatchstring=",
    ) && !has_substring(l, "keyword=")
}

// ---------------------------------------------------------------------------
// Waiting
// ---------------------------------------------------------------------------

/// The pause still owed before the next request: none before the first
/// request, when the interval is zero, or when it has already passed.
pub open spec fn pause_owed(elapsed: Option<Duration>, min_interval: Duration) -> Option<nat> {
    if min_interval@ == 0 {
        None
    } else {
        match elapsed {
            None => None,
            Some(e) => if e@ >= min_interval@ {
                None
            } else {
                Some((min_interval@ - e@) as nat)
            },
        }
    }
}

/// The pause owed makes up the interval exactly: elapsed time plus pause
/// is the interval.
pub proof fn pause_completes_interval(e: Duration, min_interval: Duration)
    ensures
        pause_owed(Some(e), min_interval) matches Some(p) ==> e@ + p == min_interval@,
        pause_owed(Some(e), min_interval) is None ==> min_interval@ == 0 || e@ >= min_interval@,
{
}

/// A pause as a number of nanoseconds.
pub open spec fn pause_of(p: Option<Duration>) -> Option<nat> {
    match p {
        Some(d) => Some(d@),
        None => None,
    }
}

pub fn sleep_needed(elapsed: Option<Duration>, min_interval: Duration) -> (r: Option<Duration>)
    requires
        min_interval.wf(),
    ensures
        match r {
            Some(d) => pause_owed(elapsed, min_interval) == Some(d@) && d.wf(),
            None => pause_owed(elapsed, min_interval) is None,
        },
{
    if min_interval.is_zero() {
        return None;
    }
    match elapsed {
        None => None,
        Some(e) => if e.as_nanos() >= min_interval.as_nanos() {
            None
        } else {
            Some(min_interval.saturating_sub(e))
        },
    }
}

/// Value of a run of decimal digits.
pub open spec fn digits_nat(s: Seq<char>) -> nat
    decreases s.len(),
{
    if s.len() == 0 {
        0
    } else {
        digits_nat(s.drop_last()) * 10 + ((s.last() as int) - 48) as nat
    }
}

/// `u64::from_str`: an optional `+`, then one or more ASCII digits whose
/// value fits in a `u64`.
pub open spec fn parse_u64(s: Seq<char>) -> Option<u64> {
    let d = unsigned_digits(s);
    if d.len() == 0 {
        None
    } else if exists|i: int| 0 <= i < d.len() && !is_ascii_digit(#[trigger] d[i]) {
        None
    } else if digits_nat(d) > u64::MAX {
        None
    } else {
        Some(digits_nat(d) as u64)
    }
}

/// `s` without a leading `+`.
pub open spec fn unsigned_digits(s: Seq<char>) -> Seq<char> {
    if s.len() > 0 && s[0] == '+' {
        s.drop_first()
    } else {
        s
    }
}

proof fn lemma_parse_bad_digit(s: Seq<char>, k: int)
    requires
        0 <= k < unsigned_digits(s).len(),
        !is_ascii_digit(unsigned_digits(s)[k]),
    ensures
        parse_u64(s) is None,
{
    let d = unsigned_digits(s);
    assert(exists|i: int| 0 <= i < d.len() && !is_ascii_digit(#[trigger] d[i]));
}

proof fn lemma_digits_grow(s: Seq<char>, k: int)
    requires
        0 <= k <= s.len(),
        forall|i: int| 0 <= i < s.len() ==> is_ascii_digit(#[trigger] s[i]),
    ensures
        digits_nat(s.take(k)) <= digits_nat(s),
    decreases s.len() - k,
{
    if k < s.len() {
        lemma_digits_grow(s, k + 1);
        assert(s.take(k + 1).drop_last() =~= s.take(k));
    } else {
        assert(s.take(k) =~= s);
    }
}

fn parse_decimal_u64(s: &str) -> (r: Option<u64>)
    ensures
        r == parse_u64(s@),
{
    let all = chars_of(s);
    let start: usize = if all.len() > 0 && all[0] == '+' { 1 } else { 0 };
    let ghost d = unsigned_digits(s@);
    assert(d =~= all@.subrange(start as int, all@.len() as int));
    if start >= all.len() {
        return None;
    }
    let mut v: u64 = 0;
    let mut i = start;
    while i < all.len()
        invariant
            start <= i <= all.len(),
            d == unsigned_digits(s@),
            d == all@.subrange(start as int, all@.len() as int),
            forall|k: int| 0 <= k < i - start ==> is_ascii_digit(#[trigger] d[k]),
            v == digits_nat(d.take(i - start)),
        decreases all.len() - i,
    {
        let c = all[i];
        if !('0' <= c && c <= '9') {
            assert(d[i - start] == c);
            assert(!is_ascii_digit(d[i - start]));
            proof {
                lemma_parse_bad_digit(s@, i - start);
            }
            return None;
        }
        assert(d.take(i - start + 1).drop_last() =~= d.take(i - start));
        let digit = (c as u8 - 48) as u64;
        if v > (u64::MAX - digit) / 10 {
            assert(v * 10 + digit > u64::MAX) by (nonlinear_arith)
                requires
                    v > (u64::MAX - digit) / 10,
                    digit <= 9,
            ;
            assert(d[i - start] == c);
            assert(digits_nat(d.take(i - start + 1)) == v * 10 + digit);
            proof {
                let rest_digits = forall|k: int| 0 <= k < d.len() ==> is_ascii_digit(#[trigger] d[k]);
                if rest_digits {
                    lemma_digits_grow(d, i - start + 1);
                }
            }
            return None;
        }
        v = v * 10 + digit;
        i += 1;
    }
    assert(d.take(d.len() as int) =~= d);
    Some(v)
}

/// The text of the Retry-After header parses as an RFC 2822 date
/// (`chrono::DateTime::parse_from_rfc2822` succeeds on it).
pub uninterp spec fn rfc2822_valid(raw: Seq<char>) -> bool;

/// Whole seconds from now until the RFC 2822 date `raw`
/// (`(DateTime::parse_from_rfc2822(raw) - Utc::now()).num_seconds()`), or
/// `None` when `raw` is no such date. Whether it parses is a function of
/// `raw`; the number of seconds depends on the clock, and nothing is stated
/// of it.
#[verifier::external_body]
fn seconds_until_rfc2822(raw: &str) -> (r: Option<i64>)
    ensures
        r is Some <==> rfc2822_valid(raw@),
{
    chrono::DateTime::parse_from_rfc2822(raw).ok().map(
        |dt| (dt.with_timezone(&chrono::Utc) - chrono::Utc::now()).num_seconds(),
    )
}

/// What a Retry-After header may ask for: nothing when absent or blank; a
/// whole number of seconds, capped at 600; a date: the whole seconds until
/// then, capped at 600, or 1 s when it has passed; anything else nothing.
pub open spec fn retry_after_admits(header: Option<Seq<char>>, r: Option<Duration>) -> bool {
    match header {
        None => r is None,
        Some(h) => {
            let raw = trim(h);
            if raw.len() == 0 {
                r is None
            } else if parse_u64(raw) is Some {
                let secs = parse_u64(raw)->0;
                r matches Some(d) && d@ == (if secs <= 600 {
                    secs as nat
                } else {
                    600
                }) * 1_000_000_000
            } else if rfc2822_valid(raw) {
                r matches Some(d) && exists|secs: i64| d@ == #[trigger] date_wait(secs)
            } else {
                r is None
            }
        },
    }
}

/// The wait, in nanoseconds, for a Retry-After date `secs` seconds away:
/// those seconds, at most 600, and 1 s for a date that has passed.
pub open spec fn date_wait(secs: i64) -> nat {
    (if secs <= 0 {
        1
    } else if secs <= 600 {
        secs as nat
    } else {
        600
    }) * 1_000_000_000
}

/// The wait for a Retry-After date `secs` seconds away.
pub fn retry_after_for_seconds(secs: i64) -> (d: Duration)
    ensures
        d@ == date_wait(secs),
        d.wf(),
{
    if secs > 0 {
        let capped: u64 = if secs <= 600 { secs as u64 } else { 600 };
        Duration::from_secs(capped)
    } else {
        Duration::from_secs(1)
    }
}

pub open spec fn opt_view(s: Option<&str>) -> Option<Seq<char>> {
    match s {
        Some(x) => Some(x@),
        None => None,
    }
}

pub fn parse_retry_after(header: Option<&str>) -> (r: Option<Duration>)
    ensures
        retry_after_admits(opt_view(header), r),
        r matches Some(d) ==> d.wf(),
{
    let h = match header {
        Some(h) => h,
        None => {
            return None;
        },
    };
    let raw_s = trimmed(h);
    let raw = raw_s.as_str();
    if chars_of(raw).len() == 0 {
        return None;
    }
    if let Some(secs) = parse_decimal_u64(raw) {
        let capped = if secs <= 600 { secs } else { 600 };
        return Some(Duration::from_secs(capped));
    }
    if let Some(secs) = seconds_until_rfc2822(raw) {
        let d = retry_after_for_seconds(secs);
        assert(d@ == date_wait(secs));
        return Some(d);
    }
    None
}

/// The back-off without a usable Retry-After: `min_interval` doubled for
/// each earlier attempt, at most 16 times `min_interval`.
pub open spec fn backoff(attempt: u32, min_interval: Duration) -> nat {
    let e: nat = if attempt <= 1 {
        0
    } else if attempt - 1 >= 4 {
        4
    } else {
        (attempt - 1) as nat
    };
    let f: nat = if e == 0 {
        1
    } else if e == 1 {
        2
    } else if e == 2 {
        4
    } else if e == 3 {
        8
    } else {
        16
    };
    if min_interval@ * f <= max_nanos() {
        min_interval@ * f
    } else {
        max_nanos()
    }
}

/// The wait before retry `attempt`: what Retry-After asks for, else the
/// back-off; never less than `min_interval`.
pub open spec fn wait_for(asked: Option<Duration>, attempt: u32, min_interval: Duration) -> nat {
    let w = match asked {
        Some(d) => d@,
        None => backoff(attempt, min_interval),
    };
    if w >= min_interval@ {
        w
    } else {
        min_interval@
    }
}

pub fn retry_wait(retry_after: Option<&str>, attempt: u32, min_interval: Duration) -> (w: Duration)
    requires
        min_interval.wf(),
    ensures
        exists|asked: Option<Duration>|
            retry_after_admits(opt_view(retry_after), asked) && w@ == wait_for(
                asked,
                attempt,
                min_interval,
            ),
        w.wf(),
        w@ >= min_interval@,
{
    let e: u32 = if attempt <= 1 {
        0
    } else if attempt - 1 >= 4 {
        4
    } else {
        attempt - 1
    };
    let f: u32 = if e == 0 {
        1
    } else if e == 1 {
        2
    } else if e == 2 {
        4
    } else if e == 3 {
        8
    } else {
        16
    };
    let fallback = min_interval.saturating_mul(f);
    let asked = parse_retry_after(retry_after);
    let w = match asked {
        Some(d) => d,
        None => fallback,
    };
    if w.as_nanos() >= min_interval.as_nanos() {
        w
    } else {
        min_interval
    }
}

/// A `vulnStatus` that marks a rejected CVE: after trimming and lowercasing,
/// `rejected`, `rejected-related`, or anything that starts with `rejected`.
pub open spec fn rejected_status(status: Seq<char>) -> bool {
    let s = lower(trim(status));
    s == "rejected"@ || s == "rejected-related"@ || starts_with(s, "rejected"@)
}

pub fn is_rejected_status(status: &str) -> (b: bool)
    ensures
        b == rejected_status(status@),
{
    let t = trimmed(status);
    let s = ascii_lowercase(t.as_str());
    str_equal(s.as_str(), "rejected") || str_equal(s.as_str(), "rejected-related") || has_prefix(
        s.as_str(),
        "rejected",
    )
}

// ---------------------------------------------------------------------------
// NVD API records
// ---------------------------------------------------------------------------

/// `cvssData` of a CVSS metric; `base_score` in tenths.
#[derive(Debug, Clone, Default)]
pub struct ApiCvssData {
    pub base_score: Option<u32>,
    pub base_severity: Option<String>,
}

/// One CVSS metric of a CVE.
#[derive(Debug, Clone, Default)]
pub struct ApiCvssMetric {
    pub metric_type: Option<String>,
    pub cvss_data: Option<ApiCvssData>,
    pub base_severity: Option<String>,
}

/// The CVSS metrics of a CVE by CVSS version.
#[derive(Debug, Clone, Default)]
pub struct ApiMetrics {
    pub v31: Vec<ApiCvssMetric>,
    pub v30: Vec<ApiCvssMetric>,
    pub v40: Vec<ApiCvssMetric>,
    pub v2: Vec<ApiCvssMetric>,
}

/// One description of a CVE.
#[derive(Debug, Clone, Default)]
pub struct ApiDesc {
    pub lang: Option<String>,
    pub value: Option<String>,
}

/// A CVE as the NVD API returns it.
#[derive(Debug, Clone)]
pub struct ApiCve {
    pub id: String,
    pub published: Option<String>,
    pub vuln_status: Option<String>,
    pub descriptions: Vec<ApiDesc>,
    pub metrics: Option<ApiMetrics>,
    pub configurations: Vec<Configuration>,
}

/// One entry of an API page.
#[derive(Debug, Clone)]
pub struct ApiItem {
    pub cve: ApiCve,
}

/// One page of API results.
#[derive(Debug, Clone)]
pub struct ApiPage {
    pub results_per_page: u32,
    pub total_results: u32,
    pub vulnerabilities: Vec<ApiItem>,
}

pub open spec fn text_of(s: Option<String>) -> Option<Seq<char>> {
    match s {
        Some(x) => Some(x@),
        None => None,
    }
}

/// Index of the first metric of type `Primary`.
pub open spec fn primary_pos(items: Seq<ApiCvssMetric>) -> Option<int>
    decreases items.len(),
{
    if items.len() == 0 {
        None
    } else if text_of(items[0].metric_type) == Some("Primary"@) {
        Some(0)
    } else {
        match primary_pos(items.drop_first()) {
            Some(i) => Some(i + 1),
            None => None,
        }
    }
}

/// The metric that counts: the first `Primary` one, else the first one.
pub open spec fn chosen_metric(items: Seq<ApiCvssMetric>) -> Option<ApiCvssMetric> {
    match primary_pos(items) {
        Some(i) => Some(items[i]),
        None => if items.len() > 0 {
            Some(items[0])
        } else {
            None
        },
    }
}

/// CVSS v2 severity band of a score in tenths.
pub open spec fn v2_band(score: Option<u32>) -> Seq<char> {
    match score {
        None => "UNKNOWN"@,
        Some(s) => if s >= 70 {
            "HIGH"@
        } else if s >= 40 {
            "MEDIUM"@
        } else {
            "LOW"@
        },
    }
}

/// Severity (uppercased; the `cvssData` one, else the metric's, else
/// `UNKNOWN`) and score of a metric; a CVSS v2 metric without a named
/// severity takes the band of its score.
pub open spec fn metric_severity(m: ApiCvssMetric, is_v2: bool) -> (Seq<char>, Option<u32>) {
    let score = match m.cvss_data {
        Some(d) => d.base_score,
        None => None,
    };
    let named = match m.cvss_data {
        Some(d) => text_of(d.base_severity),
        None => None,
    };
    let sev = upper(
        match named {
            Some(n) => n,
            None => match text_of(m.base_severity) {
                Some(n) => n,
                None => "UNKNOWN"@,
            },
        },
    );
    if is_v2 && (sev.len() == 0 || sev == "UNKNOWN"@) {
        (v2_band(score), score)
    } else {
        (sev, score)
    }
}

/// Severity and score of a CVE: from the chosen metric of the first CVSS
/// version that has one, in the order 3.1, 3.0, 4.0, 2; `UNKNOWN` without
/// any metric.
pub open spec fn severity_of(metrics: Option<ApiMetrics>) -> (Seq<char>, Option<u32>) {
    match metrics {
        None => ("UNKNOWN"@, None),
        Some(m) => match chosen_metric(m.v31@) {
            Some(x) => metric_severity(x, false),
            None => match chosen_metric(m.v30@) {
                Some(x) => metric_severity(x, false),
                None => match chosen_metric(m.v40@) {
                    Some(x) => metric_severity(x, false),
                    None => match chosen_metric(m.v2@) {
                        Some(x) => metric_severity(x, true),
                        None => ("UNKNOWN"@, None),
                    },
                },
            },
        },
    }
}

/// The CVSS versions decide in the order 3.1, 3.0, 4.0, 2: the severity and
/// score are those of the chosen metric of the first version that has any
/// metric, whatever the later versions hold (a v2 metric without a named
/// severity takes the band of its score).
pub proof fn severity_precedence(m: ApiMetrics)
    ensures
        m.v31@.len() > 0 ==> severity_of(Some(m)) == metric_severity(
            chosen_metric(m.v31@)->0,
            false,
        ),
        m.v31@.len() == 0 && m.v30@.len() > 0 ==> severity_of(Some(m)) == metric_severity(
            chosen_metric(m.v30@)->0,
            false,
        ),
        m.v31@.len() == 0 && m.v30@.len() == 0 && m.v40@.len() > 0 ==> severity_of(Some(m))
            == metric_severity(chosen_metric(m.v40@)->0, false),
        m.v31@.len() == 0 && m.v30@.len() == 0 && m.v40@.len() == 0 && m.v2@.len() > 0
            ==> severity_of(Some(m)) == metric_severity(chosen_metric(m.v2@)->0, true),
        m.v31@.len() == 0 && m.v30@.len() == 0 && m.v40@.len() == 0 && m.v2@.len() == 0
            ==> severity_of(Some(m)) == ("UNKNOWN"@, None::<u32>),
        m.v31@.len() > 0 ==> severity_of(Some(m)).1 == match chosen_metric(m.v31@)->0.cvss_data {
            Some(d) => d.base_score,
            None => None,
        },
{
    lemma_chosen_some(m.v31@);
    lemma_chosen_some(m.v30@);
    lemma_chosen_some(m.v40@);
    lemma_chosen_some(m.v2@);
}

proof fn lemma_chosen_some(items: Seq<ApiCvssMetric>)
    ensures
        chosen_metric(items) is Some <==> items.len() > 0,
{
    if items.len() == 0 {
        assert(primary_pos(items) is None);
    } else {
        lemma_primary_pos_in(items);
    }
}

proof fn lemma_primary_pos_in(items: Seq<ApiCvssMetric>)
    ensures
        primary_pos(items) matches Some(i) ==> 0 <= i < items.len(),
    decreases items.len(),
{
    if items.len() > 0 {
        lemma_primary_pos_in(items.drop_first());
    }
}

/// The metric chosen among several of one CVSS version: the first whose
/// type is `Primary`, else the first of all.
pub proof fn chosen_metric_law(items: Seq<ApiCvssMetric>)
    ensures
        items.len() == 0 ==> chosen_metric(items) is None,
        items.len() > 0 ==> exists|k: int|
            0 <= k < items.len() && chosen_metric(items) == Some(#[trigger] items[k]) && (forall|j: int|
                0 <= j < k ==> text_of(#[trigger] items[j].metric_type) != Some("Primary"@)) && (
            text_of(items[k].metric_type) == Some("Primary"@) || (k == 0 && forall|j: int|
                0 <= j < items.len() ==> text_of(#[trigger] items[j].metric_type) != Some(
                    "Primary"@,
                ))),
{
    lemma_primary_pos_first(items);
    if items.len() > 0 {
        match primary_pos(items) {
            Some(k) => {
                assert(chosen_metric(items) == Some(items[k]));
            },
            None => {
                assert(chosen_metric(items) == Some(items[0]));
            },
        }
    }
}

proof fn lemma_primary_pos_first(items: Seq<ApiCvssMetric>)
    ensures
        primary_pos(items) matches Some(k) ==> 0 <= k < items.len() && text_of(
            items[k].metric_type,
        ) == Some("Primary"@) && forall|j: int|
            0 <= j < k ==> text_of(#[trigger] items[j].metric_type) != Some("Primary"@),
        primary_pos(items) is None ==> forall|j: int|
            0 <= j < items.len() ==> text_of(#[trigger] items[j].metric_type) != Some("Primary"@),
    decreases items.len(),
{
    if items.len() > 0 {
        let rest = items.drop_first();
        lemma_primary_pos_first(rest);
        assert forall|j: int| 1 <= j < items.len() implies items[j] == rest[j - 1] by {}
    }
}

/// Severity and score of one metric: the score is its `cvssData` base score;
/// the severity is its `cvssData` severity, else its own, in upper case;
/// a CVSS v2 metric without a severity (or `UNKNOWN`) takes the band of its
/// score: HIGH from 7.0, MEDIUM from 4.0, else LOW, `UNKNOWN` without one.
pub proof fn metric_severity_law(m: ApiCvssMetric, is_v2: bool)
    ensures
        metric_severity(m, is_v2).1 == match m.cvss_data {
            Some(d) => d.base_score,
            None => None,
        },
        match m.cvss_data {
            Some(d) => match d.base_severity {
                Some(n) => (!is_v2 || (upper(n@).len() > 0 && upper(n@) != "UNKNOWN"@))
                    ==> metric_severity(m, is_v2).0 == upper(n@),
                None => (is_v2 && m.base_severity is None) ==> metric_severity(m, is_v2).0
                    == match d.base_score {
                    Some(sc) => if sc >= 70 {
                        "HIGH"@
                    } else if sc >= 40 {
                        "MEDIUM"@
                    } else {
                        "LOW"@
                    },
                    None => "UNKNOWN"@,
                },
            },
            None => true,
        },
{
    reveal_strlit("UNKNOWN");
    crate::text::lemma_upper_idempotent("UNKNOWN"@);
    assert(upper("UNKNOWN"@) =~= "UNKNOWN"@);
}

fn is_text(s: &Option<String>, t: &str) -> (b: bool)
    ensures
        b == (text_of(*s) == Some(t@)),
{
    match s {
        Some(x) => str_equal(x.as_str(), t),
        None => false,
    }
}

fn first_metric(items: &Vec<ApiCvssMetric>) -> (r: Option<usize>)
    ensures
        match r {
            Some(i) => i < items.len() && chosen_metric(items@) == Some(items@[i as int]),
            None => chosen_metric(items@) is None,
        },
{
    let mut k: usize = 0;
    assert(items@.skip(0) =~= items@);
    while k < items.len()
        invariant
            k <= items.len(),
            forall|m: int| 0 <= m < k ==> text_of(#[trigger] items@[m].metric_type) != Some("Primary"@),
            primary_pos(items@) == match primary_pos(items@.skip(k as int)) {
                Some(i) => Some(i + k),
                None => None,
            },
        decreases items.len() - k,
    {
        assert(items@.skip(k as int)[0] == items@[k as int]);
        if is_text(&items[k].metric_type, "Primary") {
            return Some(k);
        }
        assert(items@.skip(k as int).drop_first() =~= items@.skip(k + 1));
        k += 1;
    }
    if items.len() > 0 {
        Some(0)
    } else {
        None
    }
}

fn metric_result(m: &ApiCvssMetric, is_v2: bool) -> (r: (String, Option<u32>))
    ensures
        (r.0@, r.1) == metric_severity(*m, is_v2),
{
    let score = match &m.cvss_data {
        Some(d) => d.base_score,
        None => None,
    };
    let named: Option<String> = match &m.cvss_data {
        Some(d) => d.base_severity.clone(),
        None => None,
    };
    let raw: String = match named {
        Some(n) => n,
        None => match &m.base_severity {
            Some(n) => n.clone(),
            None => "UNKNOWN".to_owned(),
        },
    };
    let sev = ascii_uppercase(raw.as_str());
    if is_v2 && (chars_of(sev.as_str()).len() == 0 || str_equal(sev.as_str(), "UNKNOWN")) {
        let band = match score {
            None => "UNKNOWN",
            Some(s) => if s >= 70 {
                "HIGH"
            } else if s >= 40 {
                "MEDIUM"
            } else {
                "LOW"
            },
        };
        return (band.to_owned(), score);
    }
    (sev, score)
}

fn extract_severity(metrics: &Option<ApiMetrics>) -> (r: (String, Option<u32>))
    ensures
        (r.0@, r.1) == severity_of(*metrics),
{
    let m = match metrics {
        Some(m) => m,
        None => {
            return ("UNKNOWN".to_owned(), None);
        },
    };
    if let Some(i) = first_metric(&m.v31) {
        return metric_result(&m.v31[i], false);
    }
    if let Some(i) = first_metric(&m.v30) {
        return metric_result(&m.v30[i], false);
    }
    if let Some(i) = first_metric(&m.v40) {
        return metric_result(&m.v40[i], false);
    }
    if let Some(i) = first_metric(&m.v2) {
        return metric_result(&m.v2[i], true);
    }
    ("UNKNOWN".to_owned(), None)
}

/// At most the first `n` characters of `s`.
pub open spec fn prefix_upto(s: Seq<char>, n: nat) -> Seq<char> {
    if s.len() <= n {
        s
    } else {
        s.take(n as int)
    }
}

fn take_chars(s: &str, n: usize) -> (r: String)
    ensures
        r@ == prefix_upto(s@, n as nat),
{
    let cs = chars_of(s);
    let end = if cs.len() <= n { cs.len() } else { n };
    let r = string_of(&cs, 0, end);
    assert(r@ =~= prefix_upto(s@, n as nat));
    r
}

/// Index of the first English description.
pub open spec fn english_pos(descs: Seq<ApiDesc>) -> Option<int>
    decreases descs.len(),
{
    if descs.len() == 0 {
        None
    } else if text_of(descs[0].lang) == Some("en"@) {
        Some(0)
    } else {
        match english_pos(descs.drop_first()) {
            Some(i) => Some(i + 1),
            None => None,
        }
    }
}

/// The first English description, trimmed, at most 280 characters; empty
/// when there is none.
pub open spec fn english_text(descs: Seq<ApiDesc>) -> Seq<char> {
    match english_pos(descs) {
        Some(i) => prefix_upto(
            trim(
                match text_of(descs[i].value) {
                    Some(v) => v,
                    None => Seq::empty(),
                },
            ),
            280,
        ),
        None => Seq::empty(),
    }
}

fn english_description(descs: &Vec<ApiDesc>) -> (r: String)
    ensures
        r@ == english_text(descs@),
{
    let mut k: usize = 0;
    assert(descs@.skip(0) =~= descs@);
    while k < descs.len()
        invariant
            k <= descs.len(),
            english_pos(descs@) == match english_pos(descs@.skip(k as int)) {
                Some(i) => Some(i + k),
                None => None,
            },
        decreases descs.len() - k,
    {
        assert(descs@.skip(k as int)[0] == descs@[k as int]);
        if is_text(&descs[k].lang, "en") {
            let v = match &descs[k].value {
                Some(v) => trimmed(v.as_str()),
                None => String::new(),
            };
            return take_chars(v.as_str(), 280);
        }
        assert(descs@.skip(k as int).drop_first() =~= descs@.skip(k + 1));
        k += 1;
    }
    String::new()
}

/// The date part of a timestamp: its first 10 characters.
pub open spec fn date_part(raw: Option<String>) -> Seq<char> {
    prefix_upto(
        match text_of(raw) {
            Some(r) => r,
            None => Seq::empty(),
        },
        10,
    )
}

fn published_date(raw: &Option<String>) -> (r: String)
    ensures
        r@ == date_part(*raw),
{
    match raw {
        Some(text) => take_chars(text.as_str(), 10),
        None => String::new(),
    }
}

/// The API CVE is stored: it has an id, is not rejected, is High or
/// Critical, and has configurations.
pub open spec fn kept(cve: ApiCve) -> bool {
    &&& trim(cve.id@).len() > 0
    &&& !rejected_status(
        match text_of(cve.vuln_status) {
            Some(s) => s,
            None => Seq::empty(),
        },
    )
    &&& high_or_critical(severity_of(cve.metrics).0)
    &&& cve.configurations@.len() > 0
}

proof fn lemma_upper_literal(s: Seq<char>)
    requires
        forall|i: int| 0 <= i < s.len() ==> !crate::text::is_ascii_lower(#[trigger] s[i]),
    ensures
        upper(s) == s,
{
    assert(upper(s) =~= s);
}

/// The severity of a CVE is written in upper case.
proof fn lemma_severity_upper(metrics: Option<ApiMetrics>)
    ensures
        upper(severity_of(metrics).0) == severity_of(metrics).0,
{
    reveal_strlit("UNKNOWN");
    reveal_strlit("HIGH");
    reveal_strlit("MEDIUM");
    reveal_strlit("LOW");
    lemma_upper_literal("UNKNOWN"@);
    lemma_upper_literal("HIGH"@);
    lemma_upper_literal("MEDIUM"@);
    lemma_upper_literal("LOW"@);
    let sev = severity_of(metrics).0;
    if sev != "UNKNOWN"@ && sev != "HIGH"@ && sev != "MEDIUM"@ && sev != "LOW"@ {
        let m = metrics->0;
        let x = if chosen_metric(m.v31@) is Some {
            chosen_metric(m.v31@)->0
        } else if chosen_metric(m.v30@) is Some {
            chosen_metric(m.v30@)->0
        } else if chosen_metric(m.v40@) is Some {
            chosen_metric(m.v40@)->0
        } else {
            chosen_metric(m.v2@)->0
        };
        let named = match x.cvss_data {
            Some(d) => text_of(d.base_severity),
            None => None,
        };
        let raw = match named {
            Some(n) => n,
            None => match text_of(x.base_severity) {
                Some(n) => n,
                None => "UNKNOWN"@,
            },
        };
        crate::text::lemma_upper_idempotent(raw);
    }
}

/// The stored form of an API CVE, or `None` when it is not kept.
pub fn ingest_api_cve(cve: ApiCve) -> (r: Option<StoredCve>)
    ensures
        match r {
            None => !kept(cve),
            Some(c) => {
                &&& kept(cve)
                &&& upper(c.severity@) == c.severity@
                &&& c.id == cve.id
                &&& c.severity@ == severity_of(cve.metrics).0
                &&& c.score == severity_of(cve.metrics).1
                &&& c.published@ == date_part(cve.published)
                &&& c.description@ == english_text(cve.descriptions@)
                &&& c.configurations == cve.configurations
            },
        },
{
    let tid = trimmed(cve.id.as_str());
    if chars_of(tid.as_str()).len() == 0 {
        return None;
    }
    let rejected = match &cve.vuln_status {
        Some(s) => is_rejected_status(s.as_str()),
        None => {
            let empty = String::new();
            is_rejected_status(empty.as_str())
        },
    };
    if rejected {
        return None;
    }
    let (severity, score) = extract_severity(&cve.metrics);
    proof {
        lemma_severity_upper(cve.metrics);
    }
    if !is_high_or_critical(severity.as_str()) {
        return None;
    }
    if cve.configurations.len() == 0 {
        return None;
    }
    let published = published_date(&cve.published);
    let description = english_description(&cve.descriptions);
    Some(
        StoredCve {
            id: cve.id,
            severity,
            score,
            published,
            description,
            configurations: cve.configurations,
        },
    )
}

// ---------------------------------------------------------------------------
// Requests
// ---------------------------------------------------------------------------

/// An HTTP response: status, `Retry-After` header and body.
#[derive(Debug, Clone)]
pub struct HttpResponse {
    pub status: u16,
    pub retry_after: Option<String>,
    pub body: String,
}

/// Performs one HTTP GET.
pub trait HttpGet {
    fn get(&self, url: &str) -> Result<HttpResponse, Error>;
}

/// Pauses the caller.
pub trait Sleeper {
    fn sleep(&self, duration: Duration);
}

#[verifier::external_type_specification]
#[verifier::external_body]
pub struct ExInstant(std::time::Instant);

/// The current instant (`Instant::now`); it reads the clock.
#[verifier::external_body]
fn instant_now() -> std::time::Instant {
    std::time::Instant::now()
}

/// Nanoseconds since `t` (`Instant::elapsed`); it reads the clock.
#[verifier::external_body]
fn nanos_since(t: &std::time::Instant) -> u128 {
    t.elapsed().as_nanos()
}

/// The pacing of requests: the least interval between two requests and
/// when the last one was made.
pub struct RateLimitState {
    pub min_interval: Duration,
    pub last: Option<std::time::Instant>,
}

impl RateLimitState {
    /// Sleeps for the pause owed since the last request (`sleep_needed` of
    /// the time elapsed since then) and returns that pause: none before the
    /// first request or when the interval is zero. The elapsed time is read
    /// from the clock, so the pause is the one owed for some elapsed time.
    pub fn before_request<S: Sleeper>(&mut self, sleeper: &S) -> (slept: Option<Duration>)
        requires
            old(self).min_interval.wf(),
        ensures
            final(self).min_interval == old(self).min_interval,
            final(self).last == old(self).last,
            exists|elapsed: Option<Duration>|
                (elapsed is Some <==> old(self).last is Some) && #[trigger] pause_owed(
                    elapsed,
                    old(self).min_interval,
                ) == pause_of(slept),
            slept matches Some(d) ==> d.wf() && call_ensures(S::sleep, (sleeper, d), ()),
    {
        let elapsed = match &self.last {
            Some(t) => Some(Duration::from_nanos(nanos_since(t))),
            None => None,
        };
        let slept = sleep_needed(elapsed, self.min_interval);
        if let Some(wait) = slept {
            let sleep = S::sleep;
            sleep(sleeper, wait);
        }
        assert(pause_owed(elapsed, self.min_interval) == pause_of(slept));
        slept
    }

    /// Records that a request was made now.
    pub fn after_request(&mut self)
        ensures
            final(self).min_interval == old(self).min_interval,
            final(self).last is Some,
    {
        self.last = Some(instant_now());
    }
}

/// How many times one URL is tried.
pub const MAX_ATTEMPTS: u32 = 6;

/// What to do after one attempt.
#[derive(Debug)]
pub enum RetryStep {
    /// Hand this response to the caller.
    Deliver(HttpResponse),
    /// Sleep this long, remember this error, and try again if attempts are left.
    Pause(Duration, Error),
    /// Give up with this error.
    Fail(Error),
}

/// The message `NVD HTTP <status>`.
pub open spec fn status_message(status: u16) -> Seq<char> {
    "NVD HTTP "@ + decimal(status as nat)
}

/// The decision after attempt `attempt` of `url`:
/// a transport error is retried after the back-off (given up at the last
/// attempt); 200 and 400 are delivered; 429 and 403 wait what Retry-After
/// asks (or the back-off); a 5xx is retried after the back-off before the
/// last attempt; anything else fails.
pub open spec fn step_admits(
    attempt: u32,
    outcome: Result<HttpResponse, Error>,
    min_interval: Duration,
    url: Seq<char>,
    step: RetryStep,
) -> bool {
    match outcome {
        Err(e) => if attempt >= MAX_ATTEMPTS {
            step == RetryStep::Fail(e)
        } else {
            step matches RetryStep::Pause(w, e2) && e2 == e && w@ == wait_for(
                None,
                attempt,
                min_interval,
            )
        },
        Ok(r) => if r.status == 200 || r.status == 400 {
            step == RetryStep::Deliver(r)
        } else if r.status == 429 || r.status == 403 {
            step matches RetryStep::Pause(w, Error::Http(m)) && m@ == status_message(r.status)
                && exists|asked: Option<Duration>|
                retry_after_admits(text_of(r.retry_after), asked) && w@ == wait_for(
                    asked,
                    attempt,
                    min_interval,
                )
        } else if 500 <= r.status < 600 && attempt < MAX_ATTEMPTS {
            step matches RetryStep::Pause(w, Error::Http(m)) && m@ == status_message(r.status)
                && w@ == wait_for(None, attempt, min_interval)
        } else {
            step matches RetryStep::Fail(Error::Http(m)) && m@ == status_message(r.status)
                + " for "@ + url
        },
    }
}

/// A 403 is answered like a 429, at every attempt: the step pauses, never
/// fails or delivers; it waits what Retry-After asks (else the back-off),
/// at least the interval, and remembers `NVD HTTP <status>`.
pub proof fn throttled_status_pauses(
    attempt: u32,
    r: HttpResponse,
    min_interval: Duration,
    url: Seq<char>,
    step: RetryStep,
)
    requires
        r.status == 403 || r.status == 429,
        step_admits(attempt, Ok(r), min_interval, url, step),
    ensures
        step matches RetryStep::Pause(w, Error::Http(m)) && m@ == "NVD HTTP "@ + decimal(
            r.status as nat,
        ) && w@ >= min_interval@ && exists|asked: Option<Duration>|
            retry_after_admits(text_of(r.retry_after), asked) && w@ == #[trigger] wait_for(
                asked,
                attempt,
                min_interval,
            ),
{
}

/// The other decisions of the retry policy: 200 and 400 are handed back as
/// they came; a transport error or a 5xx is retried after the back-off
/// (keeping the transport error), except at the last attempt, where the
/// transport error is given up with and a 5xx fails naming the URL; any
/// other status fails at once naming the URL.
pub proof fn retry_step_law(
    attempt: u32,
    outcome: Result<HttpResponse, Error>,
    min_interval: Duration,
    url: Seq<char>,
    step: RetryStep,
)
    requires
        step_admits(attempt, outcome, min_interval, url, step),
    ensures
        match outcome {
            Ok(r) => {
                &&& (r.status == 200 || r.status == 400) ==> step == RetryStep::Deliver(r)
                &&& (500 <= r.status < 600 && attempt < MAX_ATTEMPTS) ==> (step matches RetryStep::Pause(
                    w,
                    Error::Http(m),
                ) && m@ == "NVD HTTP "@ + decimal(r.status as nat) && w@ == wait_for(
                    None,
                    attempt,
                    min_interval,
                ))
                &&& (r.status != 200 && r.status != 400 && r.status != 403 && r.status != 429 && !(
                500 <= r.status < 600 && attempt < MAX_ATTEMPTS)) ==> (step matches RetryStep::Fail(
                    Error::Http(m),
                ) && m@ == "NVD HTTP "@ + decimal(r.status as nat) + " for "@ + url)
            },
            Err(e) => {
                &&& attempt < MAX_ATTEMPTS ==> (step matches RetryStep::Pause(w, e2) && e2 == e
                    && w@ == wait_for(None, attempt, min_interval))
                &&& attempt >= MAX_ATTEMPTS ==> step == RetryStep::Fail(e)
            },
        },
{
}

/// Without Retry-After the wait doubles with each attempt, from the interval
/// at the first attempt up to 16 times it from the fifth on (capped at the
/// largest duration).
pub proof fn backoff_doubles(attempt: u32, min_interval: Duration)
    requires
        min_interval.wf(),
        min_interval@ * 16 <= max_nanos(),
    ensures
        attempt <= 1 ==> wait_for(None, attempt, min_interval) == min_interval@,
        1 <= attempt < 5 ==> wait_for(None, (attempt + 1) as u32, min_interval) == 2 * wait_for(
            None,
            attempt,
            min_interval,
        ),
        attempt >= 5 ==> wait_for(None, attempt, min_interval) == 16 * min_interval@,
{
}

fn status_text(status: u16) -> (m: String)
    ensures
        m@ == status_message(status),
{
    let mut m = "NVD HTTP ".to_owned();
    push_decimal(&mut m, status as u64);
    m
}

pub fn retry_step(
    attempt: u32,
    outcome: Result<HttpResponse, Error>,
    min_interval: Duration,
    url: &str,
) -> (step: RetryStep)
    requires
        min_interval.wf(),
    ensures
        step_admits(attempt, outcome, min_interval, url@, step),
        step matches RetryStep::Pause(w, _) ==> w.wf(),
{
    match outcome {
        Err(e) => {
            if attempt >= MAX_ATTEMPTS {
                RetryStep::Fail(e)
            } else {
                RetryStep::Pause(retry_wait(None, attempt, min_interval), e)
            }
        },
        Ok(r) => {
            let status = r.status;
            if status == 200 || status == 400 {
                RetryStep::Deliver(r)
            } else if status == 429 || status == 403 {
                let w = match &r.retry_after {
                    Some(h) => retry_wait(Some(h.as_str()), attempt, min_interval),
                    None => retry_wait(None, attempt, min_interval),
                };
                RetryStep::Pause(w, Error::Http(status_text(status)))
            } else if 500 <= status && status < 600 && attempt < MAX_ATTEMPTS {
                RetryStep::Pause(
                    retry_wait(None, attempt, min_interval),
                    Error::Http(status_text(status)),
                )
            } else {
                let mut m = status_text(status);
                push_str(&mut m, " for ");
                push_str(&mut m, url);
                RetryStep::Fail(Error::Http(m))
            }
        },
    }
}

/// One run of attempts: `outcomes[i]` came back from attempt `i + 1` and
/// `steps[i]` is what `retry_step` makes of it; every step but the last
/// pauses, and `res` is what the last step gives: its response, its error,
/// or, after a pause at the last attempt, the error of that pause.
pub open spec fn retry_trace(
    outcomes: Seq<Result<HttpResponse, Error>>,
    steps: Seq<RetryStep>,
    min_interval: Duration,
    url: Seq<char>,
    res: Result<HttpResponse, Error>,
) -> bool {
    &&& 1 <= outcomes.len() <= MAX_ATTEMPTS
    &&& steps.len() == outcomes.len()
    &&& forall|i: int|
        0 <= i < steps.len() ==> step_admits(
            (i + 1) as u32,
            outcomes[i],
            min_interval,
            url,
            #[trigger] steps[i],
        )
    &&& forall|i: int| 0 <= i < steps.len() - 1 ==> #[trigger] steps[i] is Pause
    &&& match steps.last() {
        RetryStep::Deliver(r) => res == Ok::<HttpResponse, Error>(r),
        RetryStep::Fail(e) => res == Err::<HttpResponse, Error>(e),
        RetryStep::Pause(_, e) => steps.len() == MAX_ATTEMPTS && res == Err::<
            HttpResponse,
            Error,
        >(e),
    }
}

/// The pauses of a run of steps, in order.
pub open spec fn pauses_in(steps: Seq<RetryStep>) -> Seq<Duration>
    decreases steps.len(),
{
    if steps.len() == 0 {
        Seq::empty()
    } else {
        pauses_in(steps.drop_last()) + match steps.last() {
            RetryStep::Pause(w, _) => seq![w],
            _ => Seq::empty(),
        }
    }
}

/// `p` is a pause `before_request` may take: the one owed for some elapsed
/// time, which there is exactly when an earlier request was recorded.
pub open spec fn pacing_admits(p: Option<Duration>, had_request: bool, min_interval: Duration) -> bool {
    exists|elapsed: Option<Duration>|
        (elapsed is Some <==> had_request) && #[trigger] pause_owed(elapsed, min_interval)
            == pause_of(p)
}

/// What fetching one URL came to.
pub struct Fetched {
    /// The response delivered, or the error given up with.
    pub result: Result<HttpResponse, Error>,
    /// For each attempt, the pause slept before it to keep the interval.
    pub pacing: Vec<Option<Duration>>,
    /// The pauses slept after attempts, before retrying, in order.
    pub retry_pauses: Vec<Duration>,
}

/// Fetches `url`, pacing requests with `rl` and retrying as `retry_step`
/// decides, at most `MAX_ATTEMPTS` times. Every attempt first sleeps the
/// pause owed since the last request, then asks the client for `url`
/// itself; the result is what the retry policy makes of the answers.
pub fn request_with_retry<H: HttpGet, S: Sleeper>(
    http: &H,
    sleeper: &S,
    url: &str,
    rl: &mut RateLimitState,
) -> (out: Fetched)
    requires
        old(rl).min_interval.wf(),
    ensures
        final(rl).min_interval == old(rl).min_interval,
        final(rl).last is Some,
        exists|outcomes: Seq<Result<HttpResponse, Error>>, steps: Seq<RetryStep>|
            #[trigger] retry_trace(outcomes, steps, old(rl).min_interval, url@, out.result)
                && out.retry_pauses@ == pauses_in(steps) && out.pacing.len() == outcomes.len()
                && forall|i: int|
                0 <= i < outcomes.len() ==> call_ensures(H::get, (http, url), #[trigger] outcomes[i]),
        forall|k: int|
            0 <= k < out.retry_pauses.len() ==> call_ensures(
                S::sleep,
                (sleeper, #[trigger] out.retry_pauses@[k]),
                (),
            ),
        forall|i: int|
            0 <= i < out.pacing.len() ==> pacing_admits(
                #[trigger] out.pacing@[i],
                i > 0 || old(rl).last is Some,
                old(rl).min_interval,
            ),
        forall|i: int|
            0 <= i < out.pacing.len() ==> (#[trigger] out.pacing@[i] matches Some(d) ==> d.wf()
                && call_ensures(S::sleep, (sleeper, d), ())),
        out.result matches Ok(r) ==> r.status == 200 || r.status == 400,
{
    let ghost min = rl.min_interval;
    let ghost first_had = rl.last is Some;
    let ghost mut outs: Seq<Result<HttpResponse, Error>> = Seq::empty();
    let ghost mut steps: Seq<RetryStep> = Seq::empty();
    let mut pauses: Vec<Duration> = Vec::new();
    let mut pacing: Vec<Option<Duration>> = Vec::new();
    let mut last_err = Error::Http("NVD request failed".to_owned());
    let mut attempt: u32 = 1;
    while attempt <= MAX_ATTEMPTS
        invariant
            1 <= attempt <= MAX_ATTEMPTS + 1,
            rl.min_interval == min,
            min == old(rl).min_interval,
            first_had == (old(rl).last is Some),
            min.wf(),
            attempt > 1 ==> rl.last is Some,
            attempt == 1 ==> rl.last == old(rl).last,
            outs.len() == attempt - 1,
            steps.len() == attempt - 1,
            pacing.len() == attempt - 1,
            forall|i: int|
                0 <= i < steps.len() ==> step_admits(
                    (i + 1) as u32,
                    outs[i],
                    min,
                    url@,
                    #[trigger] steps[i],
                ),
            forall|i: int| 0 <= i < steps.len() ==> #[trigger] steps[i] is Pause,
            forall|i: int| 0 <= i < outs.len() ==> call_ensures(H::get, (http, url), #[trigger] outs[i]),
            pauses@ == pauses_in(steps),
            forall|k: int| 0 <= k < pauses.len() ==> call_ensures(S::sleep, (sleeper, #[trigger] pauses@[k]), ()),
            forall|i: int|
                0 <= i < pacing.len() ==> pacing_admits(#[trigger] pacing@[i], i > 0 || first_had, min),
            forall|i: int|
                0 <= i < pacing.len() ==> (#[trigger] pacing@[i] matches Some(d) ==> d.wf()
                    && call_ensures(S::sleep, (sleeper, d), ())),
            attempt > 1 ==> (steps.last() matches RetryStep::Pause(_, e) && e == last_err),
        decreases MAX_ATTEMPTS + 1 - attempt,
    {
        let ghost had = rl.last is Some;
        let paced = rl.before_request(sleeper);
        assert(pacing_admits(paced, had, min));
        assert(had == (pacing.len() > 0 || first_had));
        let ghost pv = pacing@;
        pacing.push(paced);
        assert(pacing@[pv.len() as int] == paced);
        assert(forall|i: int| 0 <= i < pv.len() ==> pacing@[i] == pv[i]);
        let get = H::get;
        let outcome = get(http, url);
        rl.after_request();
        let ghost o = outcome;
        let step = retry_step(attempt, outcome, rl.min_interval, url);
        let ghost s = step;
        let ghost prev = steps;
        proof {
            outs = outs.push(o);
            steps = steps.push(s);
            assert(steps.drop_last() =~= prev);
        }
        match step {
            RetryStep::Deliver(r) => {
                assert(pauses_in(steps) =~= pauses_in(prev));
                assert(retry_trace(outs, steps, min, url@, Ok(r)));
                return Fetched { result: Ok(r), pacing, retry_pauses: pauses };
            },
            RetryStep::Fail(e) => {
                assert(pauses_in(steps) =~= pauses_in(prev));
                assert(retry_trace(outs, steps, min, url@, Err(e)));
                return Fetched { result: Err(e), pacing, retry_pauses: pauses };
            },
            RetryStep::Pause(w, e) => {
                let sleep = S::sleep;
                sleep(sleeper, w);
                pauses.push(w);
                assert(pauses_in(steps) =~= pauses_in(prev).push(w));
                last_err = e;
            },
        }
        attempt += 1;
    }
    assert(retry_trace(outs, steps, min, url@, Err(last_err)));
    Fetched { result: Err(last_err), pacing, retry_pauses: pauses }
}

// ---------------------------------------------------------------------------
// The download
// ---------------------------------------------------------------------------

/// A stored CVE with its texts taken as character sequences.
pub struct StoredView {
    pub id: Seq<char>,
    pub severity: Seq<char>,
    pub score: Option<u32>,
    pub published: Seq<char>,
    pub description: Seq<char>,
    pub configurations: Vec<Configuration>,
}

pub open spec fn stored_view(c: StoredCve) -> StoredView {
    StoredView {
        id: c.id@,
        severity: c.severity@,
        score: c.score,
        published: c.published@,
        description: c.description@,
        configurations: c.configurations,
    }
}

pub open spec fn stored_views(v: Seq<StoredCve>) -> Seq<StoredView> {
    v.map_values(|c: StoredCve| stored_view(c))
}

/// What `ingest_api_cve` stores of an API CVE.
pub open spec fn ingested(cve: ApiCve) -> Option<StoredView> {
    if kept(cve) {
        Some(
            StoredView {
                id: cve.id@,
                severity: severity_of(cve.metrics).0,
                score: severity_of(cve.metrics).1,
                published: date_part(cve.published),
                description: english_text(cve.descriptions@),
                configurations: cve.configurations,
            },
        )
    } else {
        None
    }
}

/// Some CVE in `v` has this id.
pub open spec fn has_id(v: Seq<StoredView>, id: Seq<char>) -> bool {
    exists|i: int| 0 <= i < v.len() && #[trigger] v[i].id == id
}

/// `found` after the CVEs of `items` that are kept and whose id is new,
/// in order (the first CVE seen with an id is the one kept).
pub open spec fn absorb(found: Seq<StoredView>, items: Seq<ApiItem>) -> Seq<StoredView>
    decreases items.len(),
{
    if items.len() == 0 {
        found
    } else {
        let f = absorb(found, items.drop_last());
        match ingested(items.last().cve) {
            Some(c) => if has_id(f, c.id) {
                f
            } else {
                f.push(c)
            },
            None => f,
        }
    }
}

/// A CVE worth storing: it has an id, is High or Critical, and has
/// configurations to match.
pub open spec fn stored_ok(c: StoredCve) -> bool {
    &&& trim(c.id@).len() > 0
    &&& high_or_critical(c.severity@)
    &&& upper(c.severity@) == c.severity@
    &&& c.configurations@.len() > 0
}

/// No two CVEs share an id.
pub open spec fn unique_ids(v: Seq<StoredView>) -> bool {
    forall|i: int, j: int| 0 <= i < j < v.len() ==> #[trigger] v[i].id != #[trigger] v[j].id
}

/// `(a + b) mod 2^32`, saturating: `u32::saturating_add`.
pub open spec fn sat_add_u32(a: u32, b: u32) -> u32 {
    if a + b > u32::MAX {
        u32::MAX
    } else {
        (a + b) as u32
    }
}

/// Where the download goes after a page of `page_len` CVEs: to the next
/// stream when the page is empty or the next start index reaches the total,
/// else on in the same stream by the page size the API reported (or the
/// number of CVEs on the page when it reported none).
pub open spec fn next_position(
    stream: int,
    start: u32,
    page_len: nat,
    per_page: u32,
    total: u32,
) -> (int, u32) {
    if page_len == 0 {
        (stream + 1, 0)
    } else {
        let step: u32 = if per_page > 0 {
            per_page
        } else {
            page_len as u32
        };
        let s = sat_add_u32(start, step);
        if s >= total {
            (stream + 1, 0)
        } else {
            (stream, s)
        }
    }
}

/// The state of a download: the current query stream and start index, the
/// page size asked for, and the CVEs kept so far.
pub struct SyncState {
    stream: usize,
    start: u32,
    results_per_page: u32,
    found: Vec<StoredCve>,
}

impl SyncState {
    pub closed spec fn stream_index(self) -> int {
        self.stream as int
    }

    pub closed spec fn start_at(self) -> u32 {
        self.start
    }

    pub closed spec fn page_size(self) -> u32 {
        self.results_per_page
    }

    pub closed spec fn kept_cves(self) -> Seq<StoredCve> {
        self.found@
    }

    /// Invariant: the stream index is in range, no id is kept twice, and
    /// every kept CVE has an id, is High or Critical and has configurations.
    pub open spec fn wf(self) -> bool {
        &&& 0 <= self.stream_index() <= QUERY_STREAM_COUNT
        &&& unique_ids(stored_views(self.kept_cves()))
        &&& forall|i: int| 0 <= i < self.kept_cves().len() ==> stored_ok(#[trigger] self.kept_cves()[i])
    }

    /// A download at the start of the first stream, asking for pages of
    /// `results_per_page` CVEs.
    pub fn new(results_per_page: u32) -> (s: SyncState)
        ensures
            s.wf(),
            s.stream_index() == 0,
            s.start_at() == 0,
            s.page_size() == results_per_page,
            s.kept_cves().len() == 0,
    {
        SyncState { stream: 0, start: 0, results_per_page, found: Vec::new() }
    }

    /// All streams are done.
    pub fn is_done(&self) -> (b: bool)
        ensures
            b == (self.stream_index() >= QUERY_STREAM_COUNT),
    {
        self.stream >= QUERY_STREAM_COUNT
    }

    /// The current stream (`QUERY_STREAM_COUNT` once all are done).
    pub fn stream(&self) -> (i: usize)
        ensures
            i == self.stream_index(),
    {
        self.stream
    }

    /// The start index of the next page.
    pub fn start_index(&self) -> (s: u32)
        ensures
            s == self.start_at(),
    {
        self.start
    }

    /// The URL of the next page, `None` when all streams are done. It is
    /// built from the stream, the start index and the page size alone.
    pub fn current_url(&self) -> (url: Option<String>)
        ensures
            match url {
                Some(u) => self.stream_index() < QUERY_STREAM_COUNT && u@ == url_for(
                    stream_of(self.stream_index()).0,
                    stream_of(self.stream_index()).1,
                    self.start_at() as nat,
                    self.page_size() as nat,
                ),
                None => self.stream_index() >= QUERY_STREAM_COUNT,
            },
            url matches Some(u) ==> inventory_free(u@),
    {
        if self.stream >= QUERY_STREAM_COUNT {
            return None;
        }
        proof {
            stream_urls_inventory_free(self.stream as int, self.start as nat, self.results_per_page as nat);
        }
        let (param, value) = query_stream(self.stream);
        Some(build_url(param, value, self.start, self.results_per_page))
    }

    /// NVD rejected the stream (HTTP 400): go on with the next one.
    pub fn skip_stream(&mut self)
        requires
            old(self).wf(),
            old(self).stream_index() < QUERY_STREAM_COUNT,
        ensures
            final(self).wf(),
            final(self).stream_index() == old(self).stream_index() + 1,
            final(self).start_at() == 0,
            final(self).page_size() == old(self).page_size(),
            final(self).kept_cves() == old(self).kept_cves(),
    {
        self.stream = self.stream + 1;
        self.start = 0;
    }

    /// What the final answer for the current page means: 200 brings a page
    /// to take in (`Ok(true)`); 400 means NVD rejected the stream, which is
    /// skipped (`Ok(false)`); any other status ends the download with
    /// `NVD HTTP <status> for <url>`.
    pub fn on_status(&mut self, status: u16, url: &str) -> (r: Result<bool, Error>)
        requires
            old(self).wf(),
            old(self).stream_index() < QUERY_STREAM_COUNT,
        ensures
            final(self).wf(),
            final(self).page_size() == old(self).page_size(),
            final(self).kept_cves() == old(self).kept_cves(),
            status == 200 ==> r == Ok::<bool, Error>(true) && final(self).stream_index()
                == old(self).stream_index() && final(self).start_at() == old(self).start_at(),
            status == 400 ==> r == Ok::<bool, Error>(false) && final(self).stream_index()
                == old(self).stream_index() + 1 && final(self).start_at() == 0,
            status != 200 && status != 400 ==> (r matches Err(Error::Http(m)) && m@
                == status_message(status) + " for "@ + url@) && final(self).stream_index()
                == old(self).stream_index() && final(self).start_at() == old(self).start_at(),
    {
        if status == 200 {
            Ok(true)
        } else if status == 400 {
            self.skip_stream();
            Ok(false)
        } else {
            let mut m = status_text(status);
            push_str(&mut m, " for ");
            push_str(&mut m, url);
            Err(Error::Http(m))
        }
    }

    fn keep(&mut self, c: StoredCve)
        requires
            old(self).wf(),
            stored_ok(c),
        ensures
            final(self).wf(),
            final(self).stream == old(self).stream,
            final(self).start == old(self).start,
            final(self).results_per_page == old(self).results_per_page,
            stored_views(final(self).found@) == (if has_id(stored_views(old(self).found@), c.id@) {
                stored_views(old(self).found@)
            } else {
                stored_views(old(self).found@).push(stored_view(c))
            }),
    {
        let ghost fv = stored_views(self.found@);
        let mut k: usize = 0;
        while k < self.found.len()
            invariant
                k <= self.found.len(),
                *self == *old(self),
                self.wf(),
                fv == stored_views(self.found@),
                forall|m: int| 0 <= m < k ==> #[trigger] fv[m].id != c.id@,
            decreases self.found.len() - k,
        {
            if self.found[k].id == c.id {
                assert(fv[k as int].id == c.id@);
                return;
            }
            k += 1;
        }
        let ghost before = self.found@;
        self.found.push(c);
        assert(stored_views(self.found@) =~= fv.push(stored_view(c)));
        assert forall|i: int| 0 <= i < self.found@.len() implies stored_ok(#[trigger] self.found@[i]) by {
            if i < before.len() {
                assert(self.found@[i] == before[i]);
            }
        }
    }

    /// Takes in one page of the current stream: keeps its new High and
    /// Critical CVEs and moves to the next page or stream.
    pub fn add_page(&mut self, page: ApiPage)
        requires
            old(self).wf(),
            old(self).stream_index() < QUERY_STREAM_COUNT,
        ensures
            final(self).wf(),
            (final(self).stream_index(), final(self).start_at()) == next_position(
                old(self).stream_index(),
                old(self).start_at(),
                page.vulnerabilities@.len(),
                page.results_per_page,
                page.total_results,
            ),
            final(self).page_size() == old(self).page_size(),
            stored_views(final(self).kept_cves()) == absorb(
                stored_views(old(self).kept_cves()),
                page.vulnerabilities@,
            ),
    {
        let n = page.vulnerabilities.len();
        let per_page = page.results_per_page;
        let total = page.total_results;
        let ghost items = page.vulnerabilities@;
        let ghost base = stored_views(self.found@);
        for it in iter: page.vulnerabilities.into_iter()
            invariant
                self.wf(),
                self.stream == old(self).stream,
                self.start == old(self).start,
                self.results_per_page == old(self).results_per_page,
                iter.seq() == items,
                stored_views(self.found@) == absorb(base, items.take(iter.index() as int)),
        {
            assert(items.take(iter.index() + 1).drop_last() =~= items.take(iter.index() as int));
            if let Some(c) = ingest_api_cve(it.cve) {
                self.keep(c);
            }
        }
        assert(items.take(n as int) =~= items);
        if n == 0 {
            self.stream = self.stream + 1;
            self.start = 0;
            return;
        }
        let step: u32 = if per_page > 0 { per_page } else { n as u32 };
        let next: u32 = if self.start > u32::MAX - step { u32::MAX } else { self.start + step };
        if next >= total {
            self.stream = self.stream + 1;
            self.start = 0;
        } else {
            self.start = next;
        }
    }

    proof fn lemma_db_of_kept(res: Seq<StoredCve>, kept: Seq<StoredCve>)
        requires
            res.to_multiset() == kept.to_multiset(),
            crate::db::sorted_by_id(res),
            unique_ids(stored_views(kept)),
            forall|i: int| 0 <= i < kept.len() ==> stored_ok(#[trigger] kept[i]),
        ensures
            forall|i: int| 0 <= i < res.len() ==> stored_ok(#[trigger] res[i]),
            forall|i: int, j: int|
                0 <= i < j < res.len() ==> crate::text::chars_lt(
                    #[trigger] res[i].id@,
                    #[trigger] res[j].id@,
                ),
    {
        broadcast use vstd::seq_lib::group_to_multiset_ensures;

        let kv = stored_views(kept);
        assert(kept.no_duplicates()) by {
            assert forall|i: int, j: int|
                0 <= i < kept.len() && 0 <= j < kept.len() && i != j implies kept[i] != kept[j] by {
                if i < j {
                    assert(kv[i].id != kv[j].id);
                } else {
                    assert(kv[j].id != kv[i].id);
                }
            }
        }
        kept.lemma_multiset_has_no_duplicates();
        res.lemma_multiset_has_no_duplicates_conv();
        assert forall|i: int| 0 <= i < res.len() implies stored_ok(#[trigger] res[i]) by {
            assert(res.contains(res[i]));
            assert(res.to_multiset().count(res[i]) > 0);
            assert(kept.to_multiset().count(res[i]) > 0);
            assert(kept.contains(res[i]));
            let p = choose|p: int| 0 <= p < kept.len() && kept[p] == res[i];
            assert(stored_ok(kept[p]));
        }
        assert forall|i: int, j: int| 0 <= i < j < res.len() implies crate::text::chars_lt(
            #[trigger] res[i].id@,
            #[trigger] res[j].id@,
        ) by {
            assert(res.contains(res[i]));
            assert(res.to_multiset().count(res[i]) > 0);
            assert(kept.to_multiset().count(res[i]) > 0);
            assert(kept.contains(res[i]));
            assert(res.contains(res[j]));
            assert(res.to_multiset().count(res[j]) > 0);
            assert(kept.to_multiset().count(res[j]) > 0);
            assert(kept.contains(res[j]));
            let p = choose|p: int| 0 <= p < kept.len() && kept[p] == res[i];
            let q = choose|q: int| 0 <= q < kept.len() && kept[q] == res[j];
            assert(res[i] != res[j]);
            assert(p != q);
            if p < q {
                assert(kv[p].id != kv[q].id);
            } else {
                assert(kv[q].id != kv[p].id);
            }
            assert(!crate::text::chars_lt(res[j].id@, res[i].id@));
            crate::text::lemma_chars_lt_total(res[i].id@, res[j].id@);
        }
    }

    /// The database of everything kept, stamped `synced_at`: sorted by id,
    /// with the current schema version and its counts; every CVE kept is
    /// High or Critical, so those two counts add up to the total.
    pub fn finish(self, synced_at: String) -> (db: StoredDb)
        ensures
            db.schema_version == crate::db::SCHEMA_VERSION,
            db.source@ == NVD_BASE@,
            db.synced_at == synced_at,
            db.vulnerabilities@.to_multiset() == self.kept_cves().to_multiset(),
            crate::db::sorted_by_id(db.vulnerabilities@),
            db.counts.high == crate::db::count_severity(self.kept_cves(), "HIGH"@),
            db.counts.critical == crate::db::count_severity(self.kept_cves(), "CRITICAL"@),
            db.counts.total_stored == self.kept_cves().len(),
            self.wf() ==> db.counts.high + db.counts.critical == db.counts.total_stored,
            self.wf() ==> forall|i: int|
                0 <= i < db.vulnerabilities@.len() ==> stored_ok(#[trigger] db.vulnerabilities@[i]),
            self.wf() ==> forall|i: int, j: int|
                0 <= i < j < db.vulnerabilities@.len() ==> crate::text::chars_lt(
                    #[trigger] db.vulnerabilities@[i].id@,
                    #[trigger] db.vulnerabilities@[j].id@,
                ),
    {
        proof {
            if self.wf() {
                assert forall|i: int| 0 <= i < self.found@.len() implies high_or_critical(
                    #[trigger] self.found@[i].severity@,
                ) by {
                    assert(stored_ok(self.kept_cves()[i]));
                }
                crate::db::severity_counts_cover(self.found@);
            }
        }
        let ghost kept = self.found@;
        let ghost ok = self.wf();
        let db = StoredDb::from_cves(NVD_BASE.to_owned(), synced_at, self.found);
        proof {
            if ok {
                Self::lemma_db_of_kept(db.vulnerabilities@, kept);
            }
        }
        db
    }
}

} // verus!
