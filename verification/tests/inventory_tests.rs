use crityoink::csv_inv::{inventory_columns, inventory_from_records, parse_text, Columns};
use crityoink::Error;

#[test]
fn parses_name_owner_cpe_and_aliases() {
    let text = "component,team,cpe23\nOpenSSL,platform,cpe:2.3:a:openssl:openssl:3.0.13:*:*:*:*:*:*:*\n";
    let inv = parse_text(text).unwrap();
    let rows = inv.rows;
    assert_eq!(rows.len(), 1);
    assert_eq!(rows[0].name, "OpenSSL");
    assert_eq!(rows[0].owner, "platform");
    assert_eq!(rows[0].vendor, "openssl");
    assert_eq!(rows[0].version, "3.0.13");
}

#[test]
fn rejects_csv_without_cpe_column() {
    let err = parse_text("name,owner\nfoo,bar\n").unwrap_err();
    assert!(err.message().contains("cpe"));
    match err {
        Error::Message(m) => {
            assert_eq!(m, "CSV needs a column named cpe (or cpe23 / cpe_uri). Got: name, owner")
        }
        other => panic!("unexpected {other:?}"),
    }
}

#[test]
fn semicolon_csv_with_bom_legacy_cpe_and_skips() {
    let text = "\u{feff}Name;Owner;CPE\r\nLog4j;app;cpe:/a:Apache:Log4j:2.14.1\r\n#c;x;#cpe:2.3:a:b:c:d\r\nbad;x;not-a-cpe\r\nempty;x;\r\n";
    let inv = parse_text(text).unwrap();
    assert_eq!(inv.rows.len(), 1);
    let r = &inv.rows[0];
    assert_eq!(r.line, 2);
    assert_eq!(r.name, "Log4j");
    assert_eq!(r.owner, "app");
    assert_eq!(r.part, "a");
    assert_eq!(r.vendor, "apache");
    assert_eq!(r.product, "log4j");
    assert_eq!(r.version, "2.14.1");
    assert_eq!(r.update, "*");
    assert_eq!(inv.skipped.len(), 1);
    assert_eq!(inv.skipped[0].line, 4);
    assert_eq!(inv.skipped[0].cpe, "not-a-cpe");
}

#[test]
fn tab_delimited_inventory() {
    let text = "cpe\tname\ncpe:2.3:a:x:y:1.0:*:*:*:*:*:*:*\tY\n";
    let inv = parse_text(text).unwrap();
    assert_eq!(inv.rows[0].name, "Y");
    assert_eq!(inv.rows[0].owner, "");
}

#[test]
fn no_usable_rows_is_an_error() {
    let err = parse_text("cpe,name\nnot-a-cpe,x\n").unwrap_err();
    assert_eq!(err.message(), "No usable CPE rows in CSV");
}

#[test]
fn empty_text_has_no_header_row() {
    let err = parse_text("").unwrap_err();
    assert!(err.message().starts_with("CSV has no header row"));
}

fn strings(v: &[&str]) -> Vec<String> {
    v.iter().map(|s| s.to_string()).collect()
}

#[test]
fn columns_found_by_alias_in_order() {
    let cols = inventory_columns(&strings(&[" Product ", "URI", "Team", "cpe"])).unwrap();
    assert_eq!(cols, Columns { cpe: 3, name: Some(0), owner: Some(2) });
    let cols = inventory_columns(&strings(&["cpe_uri"])).unwrap();
    assert_eq!(cols, Columns { cpe: 0, name: None, owner: None });
    assert_eq!(inventory_columns(&Vec::new()).unwrap_err().message(), "CSV has no header row");
    assert_eq!(
        inventory_columns(&strings(&[" a ", "b"])).unwrap_err().message(),
        "CSV needs a column named cpe (or cpe23 / cpe_uri). Got: a, b"
    );
}

#[test]
fn records_become_rows_and_skipped_lines() {
    let cols = Columns { cpe: 1, name: Some(0), owner: None };
    let records = vec![
        strings(&["a", " cpe:2.3:a:Vendor:Prod:1.0 "]),
        strings(&["b", "# note"]),
        strings(&["c", "junk"]),
        strings(&["d"]),
    ];
    let inv = inventory_from_records(&records, cols).unwrap();
    assert_eq!(inv.rows.len(), 1);
    assert_eq!(inv.rows[0].line, 2);
    assert_eq!(inv.rows[0].cpe, "cpe:2.3:a:Vendor:Prod:1.0");
    assert_eq!(inv.rows[0].vendor, "vendor");
    assert_eq!(inv.rows[0].update, "*");
    assert_eq!(inv.skipped.len(), 1);
    assert_eq!(inv.skipped[0].line, 4);
    assert_eq!(inv.skipped[0].cpe, "junk");
    let none = inventory_from_records(&vec![strings(&["x", ""])], cols).unwrap_err();
    assert_eq!(none.message(), "No usable CPE rows in CSV");
}
