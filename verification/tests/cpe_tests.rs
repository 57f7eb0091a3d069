use std::cmp::Ordering;

use crityoink::cpe::{
    cpe_identity_match, first_matching_criteria, is_high_or_critical, match_all, node_matches,
    severity_rank, split_cpe, version_cmp, version_compare, version_in_range, Hit,
};
use crityoink::csv_inv::InventoryRow;
use crityoink::db::{Configuration, CpeMatch, Node, StoredCve};

fn inv(part: &str, vendor: &str, product: &str, version: &str) -> InventoryRow {
    InventoryRow {
        cpe: format!("cpe:2.3:{part}:{vendor}:{product}:{version}:*:*:*:*:*:*:*"),
        name: product.to_string(),
        owner: String::new(),
        line: 2,
        part: part.to_string(),
        vendor: vendor.to_string(),
        product: product.to_string(),
        version: version.to_string(),
        update: "*".to_string(),
    }
}

fn range_match(
    criteria: &str,
    start_inc: Option<&str>,
    start_exc: Option<&str>,
    end_inc: Option<&str>,
    end_exc: Option<&str>,
) -> CpeMatch {
    CpeMatch {
        vulnerable: true,
        criteria: criteria.to_string(),
        version_start_including: start_inc.map(str::to_string),
        version_start_excluding: start_exc.map(str::to_string),
        version_end_including: end_inc.map(str::to_string),
        version_end_excluding: end_exc.map(str::to_string),
    }
}

#[test]
fn parse_cpe_23_and_legacy() {
    let a = split_cpe("cpe:2.3:a:openssl:openssl:3.0.13:*:*:*:*:*:*:*").unwrap();
    assert_eq!(a[2], "a");
    assert_eq!(a[3], "openssl");
    assert_eq!(a[4], "openssl");
    assert_eq!(a[5], "3.0.13");
    assert_eq!(a.len(), 13);

    let b = split_cpe("cpe:/a:apache:log4j:2.14.1").unwrap();
    assert_eq!(b[2], "a");
    assert_eq!(b[3], "apache");
    assert_eq!(b[4], "log4j");
    assert_eq!(b[5], "2.14.1");
    assert_eq!(b.len(), 13);
}

#[test]
fn version_compare_numeric_not_lexicographic() {
    assert_eq!(version_cmp("1.10", "1.9"), Ordering::Greater);
    assert_eq!(version_cmp("1.2", "1.2.0"), Ordering::Equal);
    assert_eq!(version_cmp("2.15.0", "2.14.1"), Ordering::Greater);
}

#[test]
fn version_ranges_including_excluding() {
    let m = range_match(
        "cpe:2.3:a:apache:log4j:*:*:*:*:*:*:*:*",
        Some("2.0"),
        None,
        None,
        Some("2.15.0"),
    );
    let row = inv("a", "apache", "log4j", "2.14.1");
    assert!(version_in_range(&row.version, &m));
    assert!(!version_in_range("2.15.0", &m));
    assert!(version_in_range("2.0", &m));
    assert!(!version_in_range("1.9", &m));
    assert!(version_in_range("*", &m));
    assert!(version_in_range("-", &m));
}

#[test]
fn exact_version_when_no_range() {
    let m = range_match(
        "cpe:2.3:a:openssl:openssl:3.0.13:*:*:*:*:*:*:*",
        None,
        None,
        None,
        None,
    );
    assert!(version_in_range("3.0.13", &m));
    assert!(!version_in_range("3.0.12", &m));
}

#[test]
fn node_or_and_negate() {
    let log4j = inv("a", "apache", "log4j", "2.14.1");
    let openssl = inv("a", "openssl", "openssl", "3.0.13");
    let m_log = range_match(
        "cpe:2.3:a:apache:log4j:2.14.1:*:*:*:*:*:*:*",
        None,
        None,
        None,
        None,
    );
    let m_ssl = range_match(
        "cpe:2.3:a:openssl:openssl:3.0.13:*:*:*:*:*:*:*",
        None,
        None,
        None,
        None,
    );

    let or_node = Node {
        operator: Some("OR".into()),
        negate: Some(false),
        cpe_match: vec![m_log.clone(), m_ssl.clone()],
        children: vec![],
    };
    assert!(node_matches(&log4j, &or_node));
    assert!(node_matches(&openssl, &or_node));

    let and_node = Node {
        operator: Some("AND".into()),
        negate: Some(false),
        cpe_match: vec![m_log.clone(), m_ssl.clone()],
        children: vec![],
    };
    assert!(!node_matches(&log4j, &and_node));

    let neg = Node {
        operator: Some("OR".into()),
        negate: Some(true),
        cpe_match: vec![m_log],
        children: vec![],
    };
    assert!(!node_matches(&log4j, &neg));
    assert!(node_matches(&openssl, &neg));
}

fn log4j_config() -> Vec<Configuration> {
    vec![Configuration {
        operator: None,
        negate: None,
        nodes: vec![Node {
            operator: Some("OR".into()),
            negate: None,
            cpe_match: vec![range_match(
                "cpe:2.3:a:apache:log4j:*:*:*:*:*:*:*:*",
                Some("2.0"),
                None,
                None,
                Some("2.15.0"),
            )],
            children: vec![],
        }],
    }]
}

fn cve(id: &str, severity: &str, score: Option<u32>, configurations: Vec<Configuration>) -> StoredCve {
    StoredCve {
        id: id.into(),
        severity: severity.into(),
        score,
        published: "2021-12-10".into(),
        description: "log4j".into(),
        configurations,
    }
}

#[test]
fn match_all_skips_low_medium() {
    let row = inv("a", "apache", "log4j", "2.14.1");
    let cfg = log4j_config();
    let cves = vec![
        StoredCve {
            id: "CVE-MED".into(),
            severity: "MEDIUM".into(),
            score: Some(50),
            published: "2021-01-01".into(),
            description: "no".into(),
            configurations: cfg.clone(),
        },
        StoredCve {
            id: "CVE-2021-44228".into(),
            severity: "CRITICAL".into(),
            score: Some(100),
            published: "2021-12-10".into(),
            description: "log4j".into(),
            configurations: cfg,
        },
    ];
    let hits = match_all(&[row], &cves);
    assert_eq!(hits.len(), 1);
    assert_eq!(hits[0].cve_id, "CVE-2021-44228");
}

#[test]
fn severity_rank_is_case_insensitive() {
    assert_eq!(severity_rank("critical"), 4);
    assert_eq!(severity_rank("High"), 3);
    assert_eq!(severity_rank("MEDIUM"), 2);
    assert_eq!(severity_rank("low"), 1);
    assert_eq!(severity_rank("none"), 0);
    assert!(is_high_or_critical("high"));
    assert!(is_high_or_critical("CRITICAL"));
    assert!(!is_high_or_critical("medium"));
}

#[test]
fn split_cpe_rejects_short_and_foreign_names() {
    assert!(split_cpe("cpe:2.3:a:b:c").is_none());
    assert!(split_cpe("cpe:/a:b").is_none());
    assert!(split_cpe("not a cpe").is_none());
    assert!(split_cpe("  cpe:2.3:a:vendor:product  ").is_none());
    let padded = split_cpe("  cpe:2.3:a:vendor:product:1.0  ").unwrap();
    assert_eq!(padded.len(), 13);
    assert_eq!(padded[4], "product");
    assert_eq!(padded[5], "1.0");
    assert_eq!(padded[6], "*");
}

#[test]
fn version_order_handles_letters_and_saturation() {
    assert_eq!(version_compare("1.0a", "1.0"), 1);
    assert_eq!(version_compare("1.0", "1.0a"), -1);
    assert_eq!(version_compare("1.0A", "1.0a"), 0);
    assert_eq!(version_compare("1.b", "1.a"), 1);
    assert_eq!(version_compare("99999999999999999999999", "18446744073709551615"), 0);
    assert_eq!(version_cmp("*", ""), Ordering::Equal);
    assert_eq!(version_cmp("1", "1.0.0.0"), Ordering::Equal);
}

#[test]
fn exclusive_start_and_inclusive_end() {
    let m = range_match("cpe:2.3:a:x:y:*:*:*:*:*:*:*:*", None, Some("1.0"), Some("2.0"), None);
    assert!(!version_in_range("1.0", &m));
    assert!(version_in_range("1.0.1", &m));
    assert!(version_in_range("2.0", &m));
    assert!(!version_in_range("2.0.1", &m));
}

#[test]
fn identity_match_respects_wildcards_and_case() {
    let row = inv("a", "apache", "log4j", "2.14.1");
    assert!(cpe_identity_match(&row, "cpe:2.3:A:Apache:LOG4J:*:*:*:*:*:*:*:*"));
    assert!(cpe_identity_match(&row, "cpe:2.3:*:*:*:*:*:*:*:*:*:*:*"));
    assert!(!cpe_identity_match(&row, "cpe:2.3:a:apache:log4net:*:*:*:*:*:*:*:*"));
    assert!(!cpe_identity_match(&row, "garbage"));
}

#[test]
fn empty_node_never_matches_even_negated() {
    let row = inv("a", "apache", "log4j", "2.14.1");
    let empty = Node { operator: None, negate: Some(true), cpe_match: vec![], children: vec![] };
    assert!(!node_matches(&row, &empty));
}

#[test]
fn nested_and_node_needs_all_children() {
    let row = inv("a", "apache", "log4j", "2.14.1");
    let hit = range_match("cpe:2.3:a:apache:log4j:2.14.1:*:*:*:*:*:*:*", None, None, None, None);
    let miss = range_match("cpe:2.3:a:apache:log4j:1.0:*:*:*:*:*:*:*", None, None, None, None);
    let child_hit = Node { operator: None, negate: None, cpe_match: vec![hit], children: vec![] };
    let child_miss = Node { operator: None, negate: None, cpe_match: vec![miss], children: vec![] };
    let parent = Node {
        operator: Some("and".into()),
        negate: None,
        cpe_match: vec![],
        children: vec![child_hit.clone(), child_miss],
    };
    assert!(!node_matches(&row, &parent));
    let parent_or = Node { operator: None, negate: None, cpe_match: vec![], children: vec![child_hit] };
    assert!(node_matches(&row, &parent_or));
}

#[test]
fn first_matching_criteria_reports_entry_or_configuration() {
    let row = inv("a", "apache", "log4j", "2.14.1");
    let crit = first_matching_criteria(&row, &log4j_config());
    assert_eq!(crit.as_deref(), Some("cpe:2.3:a:apache:log4j:*:*:*:*:*:*:*:*"));
    let hit = range_match("cpe:2.3:a:apache:log4j:2.14.1:*:*:*:*:*:*:*", None, None, None, None);
    let by_child = vec![Configuration {
        operator: None,
        negate: None,
        nodes: vec![Node {
            operator: None,
            negate: None,
            cpe_match: vec![],
            children: vec![Node { operator: None, negate: None, cpe_match: vec![hit], children: vec![] }],
        }],
    }];
    assert_eq!(
        first_matching_criteria(&row, &by_child).as_deref(),
        Some("(configuration match)")
    );
    let other = inv("a", "openssl", "openssl", "3.0.13");
    assert!(first_matching_criteria(&other, &log4j_config()).is_none());
}

#[test]
fn match_all_sorts_and_dedupes() {
    let a = inv("a", "apache", "log4j", "2.14.1");
    let b = inv("a", "apache", "log4j", "2.0");
    let dup = a.clone();
    let cves = vec![
        cve("CVE-2021-0002", "high", Some(75), log4j_config()),
        cve("CVE-2021-0003", "CRITICAL", Some(98), log4j_config()),
        cve("CVE-2021-0001", "HIGH", None, log4j_config()),
    ];
    let hits: Vec<Hit> = match_all(&[a.clone(), b.clone(), dup], &cves);
    let keys: Vec<(String, String, String)> = hits
        .iter()
        .map(|h| (h.severity.clone(), h.cve_id.clone(), h.inventory.cpe.clone()))
        .collect();
    assert_eq!(
        keys,
        vec![
            ("CRITICAL".to_string(), "CVE-2021-0003".to_string(), b.cpe.clone()),
            ("CRITICAL".to_string(), "CVE-2021-0003".to_string(), a.cpe.clone()),
            ("HIGH".to_string(), "CVE-2021-0001".to_string(), b.cpe.clone()),
            ("HIGH".to_string(), "CVE-2021-0001".to_string(), a.cpe.clone()),
            ("HIGH".to_string(), "CVE-2021-0002".to_string(), b.cpe.clone()),
            ("HIGH".to_string(), "CVE-2021-0002".to_string(), a.cpe.clone()),
        ]
    );
    assert_eq!(hits[4].score, Some(75));
    assert_eq!(hits[0].matched_criteria, "cpe:2.3:a:apache:log4j:*:*:*:*:*:*:*:*");
}

#[test]
fn split_cpe_gives_exactly_thirteen_fields() {
    let long = split_cpe("cpe:2.3:a:b:c:d:e:f:g:h:i:j:k:l").unwrap();
    assert_eq!(long.len(), 13);
    assert_eq!(long[12], "k");
    let short = split_cpe("cpe:/a:apache:log4j").unwrap();
    assert_eq!(short.len(), 13);
    assert_eq!(short[5], "*");
}
