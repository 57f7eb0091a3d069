use crityoink::cpe::Hit;
use crityoink::csv_inv::InventoryRow;
use crityoink::db::{Counts, StoredDb};
use crityoink::html::{render, render_at};

fn row() -> InventoryRow {
    InventoryRow {
        cpe: "cpe:2.3:a:apache:log4j:2.14.1:*:*:*:*:*:*:*".into(),
        name: "Log4j 2.14.1".into(),
        owner: "app".into(),
        line: 2,
        part: "a".into(),
        vendor: "apache".into(),
        product: "log4j".into(),
        version: "2.14.1".into(),
        update: "*".into(),
    }
}

fn db() -> StoredDb {
    StoredDb {
        schema_version: 1,
        synced_at: "2026-01-01T00:00:00Z".into(),
        source: "https://services.nvd.nist.gov/rest/json/cves/2.0".into(),
        counts: Counts { high: 0, critical: 1, total_stored: 1 },
        vulnerabilities: vec![],
    }
}

#[test]
fn html_contains_expected_bits_and_does_not_claim_exploit() {
    let inv = row();
    let hit = Hit {
        cve_id: "CVE-2021-44228".into(),
        severity: "CRITICAL".into(),
        score: Some(100),
        inventory: inv.clone(),
        matched_criteria: "cpe:2.3:a:apache:log4j:*:*:*:*:*:*:*:*".into(),
        published: "2021-12-10".into(),
        description: "JNDI lookup".into(),
    };
    let html = render(&[hit], &[inv], &db());
    assert!(html.contains("CVE-2021-44228"));
    assert!(html.contains("https://nvd.nist.gov/vuln/detail/CVE-2021-44228"));
    assert!(html.contains("CHECK made no network calls"));
    assert!(html.contains("Log4j 2.14.1"));
    assert!(html.contains("app"));
    assert!(html.contains("cpe:2.3:a:apache:log4j:2.14.1"));
    assert!(html.contains("CRITICAL"));
    assert!(html.contains("10.0"));
    assert!(html.contains("JNDI lookup"));
    assert!(html.contains("not a claim that the software is exploited"));
    assert!(!html.contains("confirmed exploited"));
    assert!(!html.contains("actively exploited"));
}

#[test]
fn report_escapes_and_counts() {
    let inv = row();
    let hit = Hit {
        cve_id: "CVE-<1>".into(),
        severity: "HIGH".into(),
        score: Some(75),
        inventory: inv.clone(),
        matched_criteria: "(configuration match)".into(),
        published: "2021".into(),
        description: "a & b \"q\" 'r'".into(),
    };
    let html = render_at(&[hit], &[inv.clone(), inv], &db(), "2026-02-03 04:05 UTC");
    assert!(html.contains("Generated 2026-02-03 04:05 UTC."));
    assert!(html.contains("<tr class='high'><td><a href='https://nvd.nist.gov/vuln/detail/CVE-&lt;1&gt;'>CVE-&lt;1&gt;</a></td><td>HIGH</td><td>7.5</td>"));
    assert!(html.contains("a &amp; b &quot;q&quot; &#39;r&#39;"));
    assert!(html.contains("Inventory: 2 CPE(s).\nFindings: 1."));
    assert!(html.contains("Stored High: 0, Critical: 1, total: 1."));
    assert!(html.ends_with("</tbody>\n</table>\n</body>\n</html>\n"));
}

#[test]
fn empty_report_says_no_matches() {
    let html = render_at(&[], &[], &db(), "t");
    assert!(html.contains("<tbody>\n<tr><td colspan='9'>No HIGH/CRITICAL matches.</td></tr>\n</tbody>"));
    assert!(html.contains("Findings: 0."));
}

#[test]
fn render_stamps_the_time_in_utc() {
    let html = render(&[], &[], &db());
    let at = html.find("Generated ").unwrap() + "Generated ".len();
    let label: String = html[at..].chars().take(20).collect();
    let b = label.as_bytes();
    assert!(b[..4].iter().all(|c| c.is_ascii_digit()), "{label}");
    assert_eq!(b[4], b'-');
    assert_eq!(b[7], b'-');
    assert_eq!(b[10], b' ');
    assert_eq!(b[13], b':');
    assert_eq!(&label[16..], " UTC");
}
