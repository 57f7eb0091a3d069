//! The HTML report.
use vstd::prelude::*;

use crate::cpe::{hit_views, Hit, HitView};
use crate::csv_inv::InventoryRow;
use crate::db::StoredDb;
use crate::text::{ascii_lowercase, contains, is_ascii_digit, decimal, decimal_string, digit_char, join, lower, push_char, push_decimal, push_str};

verus! {

pub const PAGE_HEAD: &'static str = r#"<!DOCTYPE html>
<html lang="en">
<head>
<meta charset="utf-8"/>
<title>crityoink report</title>
<style>
body { font-family: ui-sans-serif, system-ui, sans-serif; margin: 2rem; color: #111; }
h1 { font-size: 1.4rem; }
.meta, .note { color: #555; margin-bottom: 1.5rem; max-width: 70rem; }
table { border-collapse: collapse; width: 100%; font-size: 0.9rem; }
th, td { border-bottom: 1px solid #ddd; padding: 0.45rem 0.5rem; text-align: left; vertical-align: top; }
th { background: #111; color: #fff; position: sticky; top: 0; }
tr.critical td:nth-child(2) { color: #9b1c1c; font-weight: 700; }
tr.high td:nth-child(2) { color: #b45309; font-weight: 700; }
code { font-size: 0.78rem; word-break: break-all; }
a { color: #1d4ed8; }
</style>
</head>
<body>
<h1>crityoink local NVD report</h1>
<p class="meta">
Generated "#;

pub const AFTER_GENERATED: &'static str = r#".
NVD sync: "#;

pub const AFTER_SYNC: &'static str = r#".
Source: "#;

pub const AFTER_SOURCE: &'static str = r#".
Stored High: "#;

pub const AFTER_HIGH: &'static str = r#", Critical: "#;

pub const AFTER_CRITICAL: &'static str = r#", total: "#;

pub const AFTER_TOTAL: &'static str = r#".
Inventory: "#;

pub const AFTER_INVENTORY: &'static str = r#" CPE(s).
Findings: "#;

pub const AFTER_FINDINGS: &'static str = r#".
CHECK made no network calls.
</p>
<p class="note">
This report lists CPE configuration matches against a local High/Critical CVE database.
A match is not a claim that the software is exploited, exploitable in your environment,
or confirmed vulnerable beyond the CPE configuration rules used here.
</p>
<table>
<thead>
<tr>
<th>CVE</th><th>Severity</th><th>Score</th>
<th>Name</th><th>Owner</th><th>Your CPE</th>
<th>Matched NVD CPE</th><th>Published</th><th>Description</th>
</tr>
</thead>
<tbody>
"#;

pub const PAGE_TAIL: &'static str = r#"
</tbody>
</table>
</body>
</html>
"#;

pub const NVD_DETAIL: &'static str = "https://nvd.nist.gov/vuln/detail/";

pub const NO_MATCHES_ROW: &'static str = "<tr><td colspan='9'>No HIGH/CRITICAL matches.</td></tr>";

// ---------------------------------------------------------------------------
// Escaping
// ---------------------------------------------------------------------------

/// HTML escape of one character.
pub open spec fn esc_char(c: char) -> Seq<char> {
    if c == '&' {
        "&amp;"@
    } else if c == '<' {
        "&lt;"@
    } else if c == '>' {
        "&gt;"@
    } else if c == '"' {
        "&quot;"@
    } else if c == '\'' {
        "&#39;"@
    } else {
        seq![c]
    }
}

/// HTML escape of a text: `& < > " '` become entities.
pub open spec fn esc(s: Seq<char>) -> Seq<char>
    decreases s.len(),
{
    if s.len() == 0 {
        Seq::empty()
    } else {
        esc(s.drop_last()) + esc_char(s.last())
    }
}

/// Escaped text holds no `<`, `>`, `"` or `'`: it cannot open or close a
/// tag or an attribute.
pub proof fn escaped_has_no_markup(s: Seq<char>)
    ensures
        forall|k: int|
            0 <= k < esc(s).len() ==> #[trigger] esc(s)[k] != '<' && esc(s)[k] != '>' && esc(s)[k]
                != '"' && esc(s)[k] != '\'',
    decreases s.len(),
{
    if s.len() > 0 {
        escaped_has_no_markup(s.drop_last());
        reveal_strlit("&amp;");
        reveal_strlit("&lt;");
        reveal_strlit("&gt;");
        reveal_strlit("&quot;");
        reveal_strlit("&#39;");
        let a = esc(s.drop_last());
        let b = esc_char(s.last());
        assert forall|k: int| 0 <= k < (a + b).len() implies #[trigger] (a + b)[k] != '<' && (a
            + b)[k] != '>' && (a + b)[k] != '"' && (a + b)[k] != '\'' by {
            if k < a.len() {
                assert((a + b)[k] == a[k]);
            } else {
                assert((a + b)[k] == b[k - a.len()]);
            }
        }
    }
}

fn push_escaped(out: &mut String, s: &str)
    ensures
        final(out)@ == old(out)@ + esc(s@),
{
    for c in it: s.chars()
        invariant
            it.seq() == s@,
            out@ == old(out)@ + esc(s@.take(it.index() as int)),
    {
        let ghost before = out@;
        if c == '&' {
            push_str(out, "&amp;");
        } else if c == '<' {
            push_str(out, "&lt;");
        } else if c == '>' {
            push_str(out, "&gt;");
        } else if c == '"' {
            push_str(out, "&quot;");
        } else if c == '\'' {
            push_str(out, "&#39;");
        } else {
            push_char(out, c);
            assert(out@ =~= before + seq![c]);
        }
        assert(s@.take(it.index() + 1).drop_last() =~= s@.take(it.index() as int));
        assert(out@ =~= old(out)@ + esc(s@.take(it.index() + 1)));
    }
    assert(s@.take(s@.len() as int) =~= s@);
}

fn esc_string(s: &str) -> (r: String)
    ensures
        r@ == esc(s@),
{
    let mut out = String::new();
    push_escaped(&mut out, s);
    assert(out@ =~= esc(s@));
    out
}

// ---------------------------------------------------------------------------
// Report
// ---------------------------------------------------------------------------

/// A score in tenths written with one decimal (`75` as `7.5`); empty when
/// there is no score.
pub open spec fn score_text(score: Option<u32>) -> Seq<char> {
    match score {
        Some(t) => decimal((t / 10) as nat) + "."@ + seq![digit_char((t % 10) as nat)],
        None => Seq::empty(),
    }
}

fn score_str(score: Option<u32>) -> (s: String)
    ensures
        s@ == score_text(score),
{
    match score {
        Some(t) => {
            let mut s = decimal_string((t / 10) as u64);
            push_str(&mut s, ".");
            push_char(&mut s, (((t % 10) as u8) + 48) as char);
            s
        },
        None => String::new(),
    }
}

/// The first cells of a finding's row: CVE link, severity, score.
pub open spec fn row_head(h: HitView) -> Seq<char> {
    "<tr class='"@ + esc(lower(h.severity)) + "'><td><a href='"@ + (NVD_DETAIL@ + esc(h.cve_id))
        + "'>"@ + esc(h.cve_id) + "</a></td><td>"@ + esc(h.severity) + "</td><td>"@ + esc(
        score_text(h.score),
    )
}

/// The remaining cells of a finding's row: name, owner, CPE, matched
/// criteria, publication date, description.
pub open spec fn row_tail(h: HitView) -> Seq<char> {
    "</td><td>"@ + esc(h.inventory.name@) + "</td><td>"@ + esc(h.inventory.owner@)
        + "</td><td><code>"@ + esc(h.inventory.cpe@) + "</code></td><td><code>"@ + esc(
        h.matched_criteria,
    ) + "</code></td><td>"@ + esc(h.published) + "</td><td>"@ + esc(h.description)
        + "</td></tr>"@
}

/// The table row of one finding.
pub open spec fn row_html(h: HitView) -> Seq<char> {
    row_head(h) + row_tail(h)
}

/// The table rows: one line per finding, or a single row saying that there
/// is none.
pub open spec fn rows_html(hits: Seq<HitView>) -> Seq<char> {
    if hits.len() == 0 {
        NO_MATCHES_ROW@
    } else {
        join(hits.map_values(|h: HitView| row_html(h)), "\n"@)
    }
}

/// The whole report.
pub open spec fn page_html(
    hits: Seq<HitView>,
    inventory_len: nat,
    db: StoredDb,
    generated: Seq<char>,
) -> Seq<char> {
    PAGE_HEAD@ + esc(generated) + AFTER_GENERATED@ + esc(db.synced_at@) + AFTER_SYNC@ + esc(
        db.source@,
    ) + AFTER_SOURCE@ + decimal(db.counts.high as nat) + AFTER_HIGH@ + decimal(
        db.counts.critical as nat,
    ) + AFTER_CRITICAL@ + decimal(db.counts.total_stored as nat) + AFTER_TOTAL@ + decimal(
        inventory_len,
    ) + AFTER_INVENTORY@ + decimal(hits.len()) + AFTER_FINDINGS@ + rows_html(hits) + PAGE_TAIL@
}

/// Every report says that no network call was made and that a match is
/// not a claim of exploitation.
pub proof fn report_carries_disclaimer(
    hits: Seq<HitView>,
    inventory_len: nat,
    db: StoredDb,
    generated: Seq<char>,
)
    ensures
        contains(page_html(hits, inventory_len, db, generated), "CHECK made no network calls."@),
        contains(
            page_html(hits, inventory_len, db, generated),
            "not a claim that the software is exploited"@,
        ),
{
    let page = page_html(hits, inventory_len, db, generated);
    let f = AFTER_FINDINGS@;
    let pre = PAGE_HEAD@ + esc(generated) + AFTER_GENERATED@ + esc(db.synced_at@) + AFTER_SYNC@
        + esc(db.source@) + AFTER_SOURCE@ + decimal(db.counts.high as nat) + AFTER_HIGH@ + decimal(
        db.counts.critical as nat,
    ) + AFTER_CRITICAL@ + decimal(db.counts.total_stored as nat) + AFTER_TOTAL@ + decimal(
        inventory_len,
    ) + AFTER_INVENTORY@ + decimal(hits.len());
    let post = rows_html(hits) + PAGE_TAIL@;
    assert(page =~= pre + f + post);
    reveal_strlit(".\nCHECK made no network calls.\n</p>\n<p class=\"note\">\nThis report lists CPE configuration matches against a local High/Critical CVE database.\nA match is not a claim that the software is exploited, exploitable in your environment,\nor confirmed vulnerable beyond the CPE configuration rules used here.\n</p>\n<table>\n<thead>\n<tr>\n<th>CVE</th><th>Severity</th><th>Score</th>\n<th>Name</th><th>Owner</th><th>Your CPE</th>\n<th>Matched NVD CPE</th><th>Published</th><th>Description</th>\n</tr>\n</thead>\n<tbody>\n");
    reveal_strlit("CHECK made no network calls.");
    reveal_strlit("not a claim that the software is exploited");
    let a = "CHECK made no network calls."@;
    let b = "not a claim that the software is exploited"@;
    let ia: int = pre.len() as int + 2;
    assert(page.subrange(ia, ia + a.len() as int) =~= a);
    let ib: int = pre.len() as int + 152;
    assert(page.subrange(ib, ib + b.len() as int) =~= b);
}

fn push_row_head(out: &mut String, h: &Hit)
    ensures
        final(out)@ == old(out)@ + row_head(h@),
{
    push_str(out, "<tr class='");
    let sev = ascii_lowercase(h.severity.as_str());
    push_escaped(out, sev.as_str());
    push_str(out, "'><td><a href='");
    push_str(out, NVD_DETAIL);
    push_escaped(out, h.cve_id.as_str());
    push_str(out, "'>");
    push_escaped(out, h.cve_id.as_str());
    push_str(out, "</a></td><td>");
    push_escaped(out, h.severity.as_str());
    push_str(out, "</td><td>");
    let score = score_str(h.score);
    push_escaped(out, score.as_str());
    assert(out@ =~= old(out)@ + row_head(h@));
}

fn push_row_tail(out: &mut String, h: &Hit)
    ensures
        final(out)@ == old(out)@ + row_tail(h@),
{
    push_str(out, "</td><td>");
    push_escaped(out, h.inventory.name.as_str());
    push_str(out, "</td><td>");
    push_escaped(out, h.inventory.owner.as_str());
    push_str(out, "</td><td><code>");
    push_escaped(out, h.inventory.cpe.as_str());
    push_str(out, "</code></td><td><code>");
    push_escaped(out, h.matched_criteria.as_str());
    push_str(out, "</code></td><td>");
    push_escaped(out, h.published.as_str());
    push_str(out, "</td><td>");
    push_escaped(out, h.description.as_str());
    push_str(out, "</td></tr>");
    assert(out@ =~= old(out)@ + row_tail(h@));
}

fn push_row(out: &mut String, h: &Hit)
    ensures
        final(out)@ == old(out)@ + row_html(h@),
{
    push_row_head(out, h);
    push_row_tail(out, h);
    assert(out@ =~= old(out)@ + row_html(h@));
}

fn push_rows(out: &mut String, hits: &[Hit])
    ensures
        final(out)@ == old(out)@ + rows_html(hit_views(hits@)),
{
    if hits.len() == 0 {
        push_str(out, NO_MATCHES_ROW);
        return;
    }
    let ghost rows = hit_views(hits@).map_values(|h: HitView| row_html(h));
    let mut i: usize = 0;
    assert(out@ =~= old(out)@ + join(rows.take(0), "\n"@));
    while i < hits.len()
        invariant
            i <= hits@.len(),
            rows == hit_views(hits@).map_values(|h: HitView| row_html(h)),
            out@ == old(out)@ + join(rows.take(i as int), "\n"@),
        decreases hits@.len() - i,
    {
        assert(rows.take(i + 1).drop_last() =~= rows.take(i as int));
        assert(rows[i as int] == row_html(hits@[i as int]@));
        if i > 0 {
            push_str(out, "\n");
        }
        push_row(out, &hits[i]);
        assert(out@ =~= old(out)@ + join(rows.take(i + 1), "\n"@));
        i += 1;
    }
    assert(rows.take(hits@.len() as int) =~= rows);
}

/// The report of `hits` for an inventory and database, generated at the
/// time `generated`.
pub fn render_at(hits: &[Hit], inventory: &[InventoryRow], db: &StoredDb, generated: &str) -> (html:
    String)
    ensures
        html@ == page_html(hit_views(hits@), inventory@.len(), *db, generated@),
{
    let mut out = String::new();
    push_str(&mut out, PAGE_HEAD);
    push_escaped(&mut out, generated);
    push_str(&mut out, AFTER_GENERATED);
    push_escaped(&mut out, db.synced_at.as_str());
    push_str(&mut out, AFTER_SYNC);
    push_escaped(&mut out, db.source.as_str());
    push_str(&mut out, AFTER_SOURCE);
    push_decimal(&mut out, db.counts.high as u64);
    push_str(&mut out, AFTER_HIGH);
    push_decimal(&mut out, db.counts.critical as u64);
    push_str(&mut out, AFTER_CRITICAL);
    push_decimal(&mut out, db.counts.total_stored as u64);
    push_str(&mut out, AFTER_TOTAL);
    push_decimal(&mut out, inventory.len() as u64);
    push_str(&mut out, AFTER_INVENTORY);
    push_decimal(&mut out, hits.len() as u64);
    push_str(&mut out, AFTER_FINDINGS);
    push_rows(&mut out, hits);
    push_str(&mut out, PAGE_TAIL);
    assert(out@ =~= page_html(hit_views(hits@), inventory@.len(), *db, generated@));
    out
}

/// A time written `YYYY-MM-DD HH:MM UTC`: a year of at least four digits
/// (signed when outside 0 to 9999), then two digits each for month, day,
/// hour and minute with their separators, then ` UTC`.
pub open spec fn utc_label(g: Seq<char>) -> bool {
    let n = g.len() as int;
    let y = g.take(n - 16);
    let t = g.skip(n - 16);
    &&& n >= 20
    &&& forall|i: int|
        0 <= i < y.len() ==> is_ascii_digit(#[trigger] y[i]) || (i == 0 && (y[i] == '+' || y[i]
            == '-'))
    &&& t[0] == '-' && is_ascii_digit(t[1]) && is_ascii_digit(t[2])
    &&& t[3] == '-' && is_ascii_digit(t[4]) && is_ascii_digit(t[5])
    &&& t[6] == ' ' && is_ascii_digit(t[7]) && is_ascii_digit(t[8])
    &&& t[9] == ':' && is_ascii_digit(t[10]) && is_ascii_digit(t[11])
    &&& t.subrange(12, 16) == " UTC"@
}

/// The current UTC time written `YYYY-MM-DD HH:MM UTC`
/// (`chrono::Utc::now().format(..)`: `%Y` writes at least four digits, with
/// a sign outside 0 to 9999, and `%m`, `%d`, `%H`, `%M` two digits each).
/// It reads the clock, so which time it writes is not stated.
#[verifier::external_body]
fn utc_now_label() -> (s: String)
    ensures
        utc_label(s@),
{
    chrono::Utc::now().format("%Y-%m-%d %H:%M UTC").to_string()
}

/// The report of `hits`, generated now.
pub fn render(hits: &[Hit], inventory: &[InventoryRow], db: &StoredDb) -> (html: String)
    ensures
        exists|g: Seq<char>|
            utc_label(g) && html@ == page_html(hit_views(hits@), inventory@.len(), *db, g),
{
    let generated = utc_now_label();
    render_at(hits, inventory, db, generated.as_str())
}

} // verus!
