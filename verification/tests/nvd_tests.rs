use std::cell::RefCell;
use std::collections::VecDeque;

use crityoink::db::{Configuration, CpeMatch, Node};
use crityoink::nvd::{
    build_url, default_min_interval, ingest_api_cve, is_rejected_status, parse_retry_after,
    query_stream, request_with_retry, retry_after_for_seconds, retry_step, retry_wait, sleep_needed,
    url_is_inventory_free,
    ApiCve, ApiCvssData, ApiCvssMetric, ApiDesc, ApiItem, ApiMetrics, ApiPage, Duration, HttpGet,
    HttpResponse, RateLimitState, RetryStep, Sleeper, SyncState, NVD_BASE, QUERY_STREAM_COUNT,
};
use crityoink::Error;

struct RecSleeper {
    sleeps: RefCell<Vec<Duration>>,
}

impl Sleeper for RecSleeper {
    fn sleep(&self, duration: Duration) {
        self.sleeps.borrow_mut().push(duration);
    }
}

struct SeqClient {
    urls: RefCell<Vec<String>>,
    responses: RefCell<VecDeque<HttpResponse>>,
}

impl HttpGet for SeqClient {
    fn get(&self, url: &str) -> Result<HttpResponse, Error> {
        self.urls.borrow_mut().push(url.to_string());
        match self.responses.borrow_mut().pop_front() {
            Some(r) => Ok(r),
            None => Ok(HttpResponse { status: 200, retry_after: None, body: String::new() }),
        }
    }
}

fn recorder() -> RecSleeper {
    RecSleeper { sleeps: RefCell::new(Vec::new()) }
}

fn high_cve(id: &str, status: &str, severity: &str, score: u32, product: &str) -> ApiCve {
    ApiCve {
        id: id.to_string(),
        published: Some("2021-12-10T00:00:00.000".to_string()),
        vuln_status: Some(status.to_string()),
        descriptions: vec![ApiDesc { lang: Some("en".into()), value: Some(format!("desc {id}")) }],
        metrics: Some(ApiMetrics {
            v31: vec![ApiCvssMetric {
                metric_type: Some("Primary".into()),
                cvss_data: Some(ApiCvssData {
                    base_score: Some(score),
                    base_severity: Some(severity.to_string()),
                }),
                base_severity: None,
            }],
            ..Default::default()
        }),
        configurations: vec![Configuration {
            operator: None,
            negate: None,
            nodes: vec![Node {
                operator: Some("OR".into()),
                negate: Some(false),
                cpe_match: vec![CpeMatch {
                    vulnerable: true,
                    criteria: format!("cpe:2.3:a:acme:{product}:1.0:*:*:*:*:*:*:*"),
                    ..Default::default()
                }],
                children: vec![],
            }],
        }],
    }
}

#[test]
fn default_interval_is_six_seconds_plus_padding() {
    assert!(default_min_interval() >= Duration::from_secs(7));
    assert!(default_min_interval() <= Duration::from_secs(8));
}

#[test]
fn sleep_needed_first_request_is_none() {
    assert_eq!(sleep_needed(None, Duration::from_secs(8)), None);
}

#[test]
fn sleep_needed_pads_remaining_interval() {
    assert_eq!(
        sleep_needed(Some(Duration::from_secs(2)), Duration::from_millis(7500)),
        Some(Duration::from_millis(5500))
    );
    assert_eq!(sleep_needed(Some(Duration::from_secs(8)), Duration::from_millis(7500)), None);
}

#[test]
fn zero_interval_never_sleeps() {
    assert_eq!(sleep_needed(Some(Duration::from_secs(0)), Duration::zero()), None);
}

#[test]
fn retry_after_integer_and_cap() {
    assert_eq!(parse_retry_after(Some("12")), Some(Duration::from_secs(12)));
    assert_eq!(parse_retry_after(Some("9999")), Some(Duration::from_secs(600)));
    assert!(parse_retry_after(Some("nope")).is_none());
}

#[test]
fn retry_after_blank_plus_overflow_and_dates() {
    assert!(parse_retry_after(None).is_none());
    assert!(parse_retry_after(Some("   ")).is_none());
    assert_eq!(parse_retry_after(Some(" +7 ")), Some(Duration::from_secs(7)));
    assert!(parse_retry_after(Some("-7")).is_none());
    assert_eq!(
        parse_retry_after(Some("99999999999999999999999")),
        None
    );
    assert_eq!(
        parse_retry_after(Some("Wed, 21 Oct 2015 07:28:00 GMT")),
        Some(Duration::from_secs(1))
    );
    let far = parse_retry_after(Some("Fri, 01 Jan 2100 00:00:00 GMT")).unwrap();
    assert_eq!(far, Duration::from_secs(600));
}

#[test]
fn retry_wait_backs_off_and_floors() {
    let min = Duration::from_secs(1);
    assert_eq!(retry_wait(None, 1, min), Duration::from_secs(1));
    assert_eq!(retry_wait(None, 2, min), Duration::from_secs(2));
    assert_eq!(retry_wait(None, 4, min), Duration::from_secs(8));
    assert_eq!(retry_wait(None, 9, min), Duration::from_secs(16));
    assert_eq!(retry_wait(Some("0"), 3, min), Duration::from_secs(1));
    assert_eq!(retry_wait(Some("30"), 3, min), Duration::from_secs(30));
}

#[test]
fn urls_never_include_inventory_or_cpe_list() {
    let url = build_url("cvssV3Severity", "HIGH", 0, 2000);
    assert!(url.starts_with(NVD_BASE));
    assert!(url.contains("cvssV3Severity=HIGH"));
    assert!(url.contains("noRejected"));
    assert!(url.contains("startIndex=0"));
    assert!(url.contains("resultsPerPage=2000"));
    assert!(url_is_inventory_free(&url));
    assert!(!url.to_ascii_lowercase().contains("openssl"));
    assert!(!url.to_ascii_lowercase().contains("log4j"));
}

#[test]
fn inventory_parameters_are_detected() {
    assert!(!url_is_inventory_free("https://x/?cpeName=cpe:2.3:a:b:c"));
    assert!(!url_is_inventory_free("https://x/?KEYWORD=log4j"));
    assert!(!url_is_inventory_free("https://x/?virtualMatchString=cpe"));
    assert!(url_is_inventory_free("https://x/?keywords"));
}

#[test]
fn rejected_statuses() {
    assert!(is_rejected_status("Rejected"));
    assert!(is_rejected_status(" rejected-related "));
    assert!(is_rejected_status("REJECTED by CNA"));
    assert!(!is_rejected_status("Analyzed"));
    assert!(!is_rejected_status(""));
}

#[test]
fn ingest_skips_rejected_and_medium() {
    assert!(ingest_api_cve(high_cve("CVE-2020-REJ", "Rejected", "HIGH", 75, "foo")).is_none());
    assert!(
        ingest_api_cve(high_cve("CVE-2020-REJR", "Rejected-related", "CRITICAL", 98, "foo"))
            .is_none()
    );
    assert!(ingest_api_cve(high_cve("CVE-2020-MED", "Analyzed", "MEDIUM", 50, "foo")).is_none());
    let stored = ingest_api_cve(high_cve("CVE-2020-HI", "Analyzed", "HIGH", 75, "foo")).unwrap();
    assert_eq!(stored.id, "CVE-2020-HI");
    assert_eq!(stored.severity, "HIGH");
    assert_eq!(stored.score, Some(75));
    assert_eq!(stored.published, "2021-12-10");
    assert_eq!(stored.description, "desc CVE-2020-HI");
}

#[test]
fn ingest_uses_v2_score_bands_and_needs_configurations() {
    let mut cve = high_cve("CVE-2000-0001", "Analyzed", "HIGH", 75, "foo");
    cve.metrics = Some(ApiMetrics {
        v2: vec![ApiCvssMetric {
            metric_type: Some("Secondary".into()),
            cvss_data: Some(ApiCvssData { base_score: Some(70), base_severity: None }),
            base_severity: None,
        }],
        ..Default::default()
    });
    let stored = ingest_api_cve(cve.clone()).unwrap();
    assert_eq!(stored.severity, "HIGH");
    cve.configurations = vec![];
    assert!(ingest_api_cve(cve).is_none());
    let mut blank = high_cve("  ", "Analyzed", "HIGH", 75, "foo");
    assert!(ingest_api_cve(blank.clone()).is_none());
    blank.id = "CVE-1".into();
    blank.metrics = None;
    assert!(ingest_api_cve(blank).is_none());
}

fn page(total: u32, cves: Vec<ApiCve>) -> ApiPage {
    ApiPage {
        results_per_page: 1,
        total_results: total,
        vulnerabilities: cves.into_iter().map(|cve| ApiItem { cve }).collect(),
    }
}

#[test]
fn sync_paginates_filters_and_dedupes() {
    let mut state = SyncState::new(1);
    let mut urls = Vec::new();
    while let Some(url) = state.current_url() {
        urls.push(url.clone());
        if url.contains("cvssV3Severity=HIGH") && state.start_index() == 0 {
            state.add_page(page(2, vec![high_cve("CVE-2020-0001", "Analyzed", "HIGH", 75, "one")]));
        } else if url.contains("cvssV3Severity=HIGH") {
            state.add_page(page(2, vec![high_cve("CVE-2020-0002", "Rejected", "HIGH", 75, "two")]));
        } else if url.contains("cvssV3Severity=CRITICAL") {
            state.add_page(page(1, vec![high_cve("CVE-2020-0001", "Analyzed", "HIGH", 75, "one")]));
        } else {
            state.add_page(page(0, vec![]));
        }
    }
    assert!(state.is_done());
    let db = state.finish("2026-01-01T00:00:00Z".into());
    assert_eq!(db.counts.total_stored, 1);
    assert_eq!(db.counts.high, 1);
    assert_eq!(db.vulnerabilities[0].id, "CVE-2020-0001");
    assert_eq!(db.source, NVD_BASE);
    assert!(!db.synced_at.is_empty());
    assert!(urls.iter().all(|u| url_is_inventory_free(u)));
    assert!(urls.iter().any(|u| u.contains("startIndex=1")));
    assert_eq!(urls.len(), 6);
}

#[test]
fn rejected_stream_is_skipped() {
    let mut state = SyncState::new(2000);
    for _ in 0..QUERY_STREAM_COUNT {
        assert!(state.current_url().is_some());
        state.skip_stream();
    }
    assert!(state.current_url().is_none());
    assert_eq!(query_stream(4), ("cvssV2Severity", "HIGH"));
}

#[test]
fn respects_429_retry_after_then_succeeds() {
    let sleeper = recorder();
    let client = SeqClient {
        urls: RefCell::new(Vec::new()),
        responses: RefCell::new(VecDeque::from([
            HttpResponse { status: 429, retry_after: Some("3".into()), body: String::new() },
            HttpResponse { status: 200, retry_after: None, body: String::new() },
        ])),
    };
    let mut rl = RateLimitState { min_interval: Duration::from_millis(1), last: None };
    let fetched = request_with_retry(&client, &sleeper, "https://example.invalid/", &mut rl);
    let (res, pauses) = (fetched.result, fetched.retry_pauses);
    let resp = res.unwrap();
    assert_eq!(pauses, vec![Duration::from_secs(3)]);
    assert!(rl.last.is_some());
    assert_eq!(resp.status, 200);
    let sleeps = sleeper.sleeps.borrow();
    assert!(
        sleeps.iter().any(|d| *d == Duration::from_secs(3)),
        "expected Retry-After sleep, got {sleeps:?}"
    );
}

#[test]
fn server_errors_retry_then_give_up() {
    let sleeper = recorder();
    let responses: VecDeque<HttpResponse> = (0..6)
        .map(|_| HttpResponse { status: 503, retry_after: None, body: String::new() })
        .collect();
    let client = SeqClient { urls: RefCell::new(Vec::new()), responses: RefCell::new(responses) };
    let mut rl = RateLimitState { min_interval: Duration::zero(), last: None };
    let fetched = request_with_retry(&client, &sleeper, "u", &mut rl);
    let (res, pauses) = (fetched.result, fetched.retry_pauses);
    let err = res.unwrap_err();
    assert_eq!(pauses.len(), 5);
    assert!(client.urls.borrow().iter().all(|u| u == "u"));
    assert_eq!(err.message(), "HTTP error: NVD HTTP 503 for u");
    assert_eq!(client.urls.borrow().len(), 6);
}

#[test]
fn retry_step_decisions() {
    let min = Duration::from_secs(1);
    let ok = HttpResponse { status: 400, retry_after: None, body: "b".into() };
    assert!(matches!(retry_step(1, Ok(ok), min, "u"), RetryStep::Deliver(r) if r.status == 400));
    let nf = HttpResponse { status: 404, retry_after: None, body: String::new() };
    match retry_step(1, Ok(nf), min, "u") {
        RetryStep::Fail(e) => assert_eq!(e.message(), "HTTP error: NVD HTTP 404 for u"),
        other => panic!("unexpected {other:?}"),
    }
    match retry_step(2, Err(Error::Http("down".into())), min, "u") {
        RetryStep::Pause(w, e) => {
            assert_eq!(w, Duration::from_secs(2));
            assert_eq!(e.message(), "HTTP error: down");
        }
        other => panic!("unexpected {other:?}"),
    }
    assert!(matches!(retry_step(6, Err(Error::Http("down".into())), min, "u"), RetryStep::Fail(_)));
}

#[test]
fn rate_limiter_records_padding_between_requests() {
    let sleeper = recorder();
    let mut rl = RateLimitState { min_interval: Duration::from_millis(7500), last: None };
    rl.before_request(&sleeper);
    rl.after_request();
    rl.before_request(&sleeper);
    let sleeps = sleeper.sleeps.borrow();
    assert_eq!(sleeps.len(), 1);
    assert!(sleeps[0] >= Duration::from_millis(7400));
    assert!(sleeps[0] <= Duration::from_millis(7500));
}

#[test]
fn before_request_returns_the_pause_it_slept() {
    let sleeper = recorder();
    let mut rl = RateLimitState { min_interval: Duration::from_millis(7500), last: None };
    assert_eq!(rl.before_request(&sleeper), None);
    rl.after_request();
    let pause = rl.before_request(&sleeper).unwrap();
    assert!(pause >= Duration::from_millis(7400) && pause <= Duration::from_millis(7500));
    assert_eq!(sleeper.sleeps.borrow().as_slice(), &[pause]);
    let mut none = RateLimitState { min_interval: Duration::zero(), last: None };
    none.after_request();
    assert_eq!(none.before_request(&sleeper), None);
}

#[test]
fn repeated_429_backs_off_then_gives_up() {
    let sleeper = recorder();
    let responses: VecDeque<HttpResponse> = (0..6)
        .map(|_| HttpResponse { status: 429, retry_after: None, body: String::new() })
        .collect();
    let client = SeqClient { urls: RefCell::new(Vec::new()), responses: RefCell::new(responses) };
    let mut rl = RateLimitState { min_interval: Duration::from_millis(10), last: None };
    let fetched = request_with_retry(&client, &sleeper, "u", &mut rl);
    let (res, pauses) = (fetched.result, fetched.retry_pauses);
    assert_eq!(res.unwrap_err().message(), "HTTP error: NVD HTTP 429");
    assert_eq!(client.urls.borrow().as_slice(), &["u", "u", "u", "u", "u", "u"]);
    let expected: Vec<Duration> =
        [10u64, 20, 40, 80, 160, 160].iter().map(|&ms| Duration::from_millis(ms)).collect();
    assert_eq!(pauses, expected);
    let slept = sleeper.sleeps.borrow();
    for p in &expected {
        assert!(slept.contains(p));
    }
    assert!(rl.last.is_some());
}

#[test]
fn retry_after_date_seconds_are_capped_and_floored() {
    assert_eq!(retry_after_for_seconds(-5), Duration::from_secs(1));
    assert_eq!(retry_after_for_seconds(0), Duration::from_secs(1));
    assert_eq!(retry_after_for_seconds(42), Duration::from_secs(42));
    assert_eq!(retry_after_for_seconds(600), Duration::from_secs(600));
    assert_eq!(retry_after_for_seconds(100_000), Duration::from_secs(600));
}

#[test]
fn sync_status_dispatch() {
    let mut state = SyncState::new(10);
    assert_eq!(state.on_status(200, "u").unwrap(), true);
    assert_eq!(state.stream(), 0);
    assert_eq!(state.on_status(400, "u").unwrap(), false);
    assert_eq!(state.stream(), 1);
    assert_eq!(state.start_index(), 0);
    let err = state.on_status(500, "https://x/").unwrap_err();
    assert_eq!(err.message(), "HTTP error: NVD HTTP 500 for https://x/");
    assert_eq!(state.stream(), 1);
}

#[test]
fn finish_counts_high_and_critical() {
    let state = SyncState::new(10);
    let db = state.finish("now".into());
    assert_eq!(db.schema_version, 1);
    assert_eq!(db.source, NVD_BASE);
    assert_eq!((db.counts.high, db.counts.critical, db.counts.total_stored), (0, 0, 0));
}
