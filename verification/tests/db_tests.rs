use std::path::PathBuf;

use crityoink::cli::{check_exit_code, command_of, report_path, resolve_data_dir, Cli, Command};
use crityoink::db::{data_dir_from_env, db_path, path_join, StoredCve, StoredDb, SCHEMA_VERSION};
use crityoink::Error;

fn sample_cve(id: &str, severity: &str) -> StoredCve {
    StoredCve {
        id: id.to_string(),
        severity: severity.to_string(),
        score: Some(98),
        published: "2021-12-10".to_string(),
        description: "test".to_string(),
        configurations: vec![],
    }
}

#[test]
fn default_dir_uses_xdg_then_home() {
    let xdg = data_dir_from_env(Some("/tmp/xdg-cache"), Some("/home/user"));
    assert_eq!(PathBuf::from(xdg), PathBuf::from("/tmp/xdg-cache/crityoink"));
    let home = data_dir_from_env(None, Some("/home/user"));
    assert_eq!(PathBuf::from(home), PathBuf::from("/home/user/.cache/crityoink"));
}

#[test]
fn empty_xdg_falls_back_and_no_home_is_relative() {
    assert_eq!(data_dir_from_env(Some(""), Some("/h/")), "/h/.cache/crityoink");
    assert_eq!(data_dir_from_env(None, None), ".cache/crityoink");
}

#[test]
fn db_file_lives_in_data_dir() {
    assert_eq!(db_path("/tmp/x"), "/tmp/x/nvd.json");
    assert_eq!(db_path("/tmp/x/"), "/tmp/x/nvd.json");
    assert_eq!(path_join("", "a"), "a");
}

#[test]
fn from_cves_sorts_and_counts() {
    let db = StoredDb::from_cves(
        "src".into(),
        "now".into(),
        vec![
            sample_cve("CVE-2024-0001", "HIGH"),
            sample_cve("CVE-2021-44228", "critical"),
            sample_cve("CVE-2020-0001", "high"),
            sample_cve("CVE-2019-0001", "MEDIUM"),
        ],
    );
    assert_eq!(db.schema_version, SCHEMA_VERSION);
    assert_eq!(db.source, "src");
    assert_eq!(db.synced_at, "now");
    assert_eq!(db.counts.high, 2);
    assert_eq!(db.counts.critical, 1);
    assert_eq!(db.counts.total_stored, 4);
    let ids: Vec<&str> = db.vulnerabilities.iter().map(|v| v.id.as_str()).collect();
    assert_eq!(ids, vec!["CVE-2019-0001", "CVE-2020-0001", "CVE-2021-44228", "CVE-2024-0001"]);
}

#[test]
fn no_db_message_names_the_file() {
    let e = Error::NoDb("/d/nvd.json".into(), "/d".into());
    assert_eq!(
        e.message(),
        "No local NVD database at /d/nvd.json\nRun: crityoink --get --data-dir /d"
    );
    assert_eq!(Error::msg("hi").message(), "hi");
    assert_eq!(Error::Http("x".into()).message(), "HTTP error: x");
}

#[test]
fn exactly_one_of_get_and_check() {
    let base = Cli { get: false, full: false, check: None, data_dir: None, out: None };
    assert_eq!(command_of(base.clone()), Command::Usage);
    let both = Cli { get: true, check: Some("x.csv".into()), ..base.clone() };
    assert_eq!(command_of(both), Command::Usage);
    let get = Cli { get: true, full: true, data_dir: Some("d".into()), ..base.clone() };
    assert_eq!(command_of(get), Command::Get { data_dir: Some("d".into()), full: true });
    let check = Cli { check: Some("x.csv".into()), out: Some("r.html".into()), ..base };
    assert_eq!(
        command_of(check),
        Command::Check { csv: "x.csv".into(), data_dir: None, out: Some("r.html".into()) }
    );
    assert_eq!(check_exit_code(0), 0);
    assert_eq!(check_exit_code(3), 2);
    assert_eq!(report_path(None), "crityoink-report.html");
    assert_eq!(resolve_data_dir(Some("mine".into()), Some("/x"), None), "mine");
    assert_eq!(resolve_data_dir(None, Some("/x"), None), "/x/crityoink");
}

#[test]
fn from_cves_keeps_order_of_equal_ids() {
    let db = StoredDb::from_cves(
        "src".into(),
        "now".into(),
        vec![
            sample_cve("CVE-2024-0002", "HIGH"),
            sample_cve("CVE-2024-0001", "CRITICAL"),
            sample_cve("CVE-2024-0002", "CRITICAL"),
            sample_cve("CVE-2024-0001", "HIGH"),
        ],
    );
    let got: Vec<(&str, &str)> =
        db.vulnerabilities.iter().map(|v| (v.id.as_str(), v.severity.as_str())).collect();
    assert_eq!(
        got,
        vec![
            ("CVE-2024-0001", "CRITICAL"),
            ("CVE-2024-0001", "HIGH"),
            ("CVE-2024-0002", "HIGH"),
            ("CVE-2024-0002", "CRITICAL"),
        ]
    );
}
