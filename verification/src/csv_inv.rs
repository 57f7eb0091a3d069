//! The CPE inventory: one row per usable line of the inventory CSV.
use vstd::prelude::*;

use crate::cpe::{cpe_fields, split_cpe};
use crate::Error;
use crate::text::{
    ascii_lowercase, chars_of, lemma_lower_idempotent, lemma_trim_idempotent, eq_ignore_case, join, join_strings, lower, push_str, starts_with, string_of,
    trim, trimmed, views,
};

verus! {

/// One inventory line with its CPE split into the fields that matching reads.
#[derive(Debug, PartialEq, Eq)]
pub struct InventoryRow {
    pub cpe: String,
    pub name: String,
    pub owner: String,
    pub line: usize,
    pub part: String,
    pub vendor: String,
    pub product: String,
    pub version: String,
    pub update: String,
}

impl Clone for InventoryRow {
    fn clone(&self) -> (r: Self)
        ensures
            r == *self,
    {
        InventoryRow {
            cpe: self.cpe.clone(),
            name: self.name.clone(),
            owner: self.owner.clone(),
            line: self.line,
            part: self.part.clone(),
            vendor: self.vendor.clone(),
            product: self.product.clone(),
            version: self.version.clone(),
            update: self.update.clone(),
        }
    }
}

/// An inventory row with its texts taken as character sequences.
pub struct RowView {
    pub cpe: Seq<char>,
    pub name: Seq<char>,
    pub owner: Seq<char>,
    pub line: int,
    pub part: Seq<char>,
    pub vendor: Seq<char>,
    pub product: Seq<char>,
    pub version: Seq<char>,
    pub update: Seq<char>,
}

impl View for InventoryRow {
    type V = RowView;

    open spec fn view(&self) -> RowView {
        RowView {
            cpe: self.cpe@,
            name: self.name@,
            owner: self.owner@,
            line: self.line as int,
            part: self.part@,
            vendor: self.vendor@,
            product: self.product@,
            version: self.version@,
            update: self.update@,
        }
    }
}

pub open spec fn row_views(v: Seq<InventoryRow>) -> Seq<RowView> {
    v.map_values(|r: InventoryRow| r@)
}

/// A line of the CSV whose CPE column holds no CPE.
#[derive(Debug, Clone, PartialEq, Eq)]
pub struct SkippedLine {
    pub line: usize,
    pub cpe: String,
}

/// The rows of an inventory CSV and the lines skipped for want of a CPE.
#[derive(Debug, Clone)]
pub struct Inventory {
    pub rows: Vec<InventoryRow>,
    pub skipped: Vec<SkippedLine>,
}

// ---------------------------------------------------------------------------
// The CSV reader
// ---------------------------------------------------------------------------

/// Header fields that the `csv` crate reads from `text`, with `delim` as
/// delimiter and records of any length.
pub uninterp spec fn csv_header_fields(text: Seq<char>, delim: u8) -> Option<Seq<Seq<char>>>;

/// Data records (all records after the header) that the `csv` crate reads
/// from `text`, with `delim` as delimiter and records of any length.
pub uninterp spec fn csv_record_fields(text: Seq<char>, delim: u8) -> Option<
    Seq<Seq<Seq<char>>>,
>;

pub open spec fn record_views(v: Seq<Vec<String>>) -> Seq<Seq<Seq<char>>> {
    v.map_values(|r: Vec<String>| views(r@))
}

/// The header record of `text` (`csv::Reader::headers` of a reader built
/// with `delimiter(delim)` and `flexible(true)`); the result is a function of
/// the text and the delimiter. A failure comes back as the text of the
/// `csv` error; nothing is stated of that text.
#[verifier::external_body]
fn read_csv_headers(text: &str, delim: u8) -> (res: Result<Vec<String>, String>)
    ensures
        match res {
            Ok(h) => csv_header_fields(text@, delim) == Some(views(h@)),
            Err(_) => csv_header_fields(text@, delim) is None,
        },
{
    let mut reader = csv::ReaderBuilder::new().delimiter(delim).flexible(true).from_reader(
        text.as_bytes(),
    );
    reader.headers().map(|h| h.iter().map(|f| f.to_string()).collect()).map_err(|e| e.to_string())
}

/// The data records of `text` (`csv::Reader::records` of a reader built
/// with `delimiter(delim)` and `flexible(true)`), or the text of the first
/// `csv` error; the records are a function of the text and the delimiter,
/// and nothing is stated of the error text.
#[verifier::external_body]
fn read_csv_records(text: &str, delim: u8) -> (res: Result<Vec<Vec<String>>, String>)
    ensures
        match res {
            Ok(r) => csv_record_fields(text@, delim) == Some(record_views(r@)),
            Err(_) => csv_record_fields(text@, delim) is None,
        },
{
    let mut reader = csv::ReaderBuilder::new().delimiter(delim).flexible(true).from_reader(
        text.as_bytes(),
    );
    reader.records().map(|r| r.map(|rec| rec.iter().map(|f| f.to_string()).collect())).collect::<
        Result<Vec<Vec<String>>, csv::Error>,
    >().map_err(|e| e.to_string())
}

// ---------------------------------------------------------------------------
// Specifications
// ---------------------------------------------------------------------------

/// Number of occurrences of `c` in `s`.
pub open spec fn count_char(s: Seq<char>, c: char) -> nat
    decreases s.len(),
{
    if s.len() == 0 {
        0
    } else {
        count_char(s.drop_last(), c) + if s.last() == c {
            1nat
        } else {
            0nat
        }
    }
}

/// The delimiter that the header line uses most: tab when it outnumbers
/// both commas and semicolons, else semicolon when it outnumbers commas,
/// else comma.
pub open spec fn sniffed(header: Seq<char>) -> u8 {
    let commas = count_char(header, ',');
    let semis = count_char(header, ';');
    let tabs = count_char(header, '\t');
    if tabs > commas && tabs > semis {
        9
    } else if semis > commas {
        59
    } else {
        44
    }
}

/// `text` without a leading byte order mark.
pub open spec fn without_bom(text: Seq<char>) -> Seq<char> {
    if text.len() > 0 && text[0] == '\u{feff}' {
        text.drop_first()
    } else {
        text
    }
}

/// Index of the first line break in `s`, or its length.
pub open spec fn line_end(s: Seq<char>) -> nat
    decreases s.len(),
{
    if s.len() == 0 || s[0] == '\n' {
        0
    } else {
        1 + line_end(s.drop_first())
    }
}

/// Index of the first field equal to `alias` up to ASCII case.
pub open spec fn position_of(fields: Seq<Seq<char>>, alias: Seq<char>) -> Option<int>
    decreases fields.len(),
{
    if fields.len() == 0 {
        None
    } else if lower(fields[0]) == lower(alias) {
        Some(0)
    } else {
        match position_of(fields.drop_first(), alias) {
            Some(i) => Some(i + 1),
            None => None,
        }
    }
}

proof fn lemma_position_first(fields: Seq<Seq<char>>, alias: Seq<char>, k: int)
    requires
        0 <= k <= fields.len(),
        forall|m: int| 0 <= m < k ==> lower(#[trigger] fields[m]) != lower(alias),
    ensures
        k < fields.len() && lower(fields[k]) == lower(alias) ==> position_of(fields, alias) == Some(k),
        k == fields.len() ==> position_of(fields, alias) is None,
    decreases k,
{
    if k > 0 {
        let rest = fields.drop_first();
        assert forall|m: int| 0 <= m < k - 1 implies lower(#[trigger] rest[m]) != lower(alias) by {
            assert(rest[m] == fields[m + 1]);
        }
        lemma_position_first(rest, alias, k - 1);
        assert(lower(fields[0]) != lower(alias));
        if k < fields.len() {
            assert(rest[k - 1] == fields[k]);
        }
    }
}

/// Position of the first alias, in alias order, that names a field.
pub open spec fn lookup_in(fields: Seq<Seq<char>>, aliases: Seq<Seq<char>>) -> Option<int>
    decreases aliases.len(),
{
    if aliases.len() == 0 {
        None
    } else {
        match position_of(fields, aliases[0]) {
            Some(i) => Some(i),
            None => lookup_in(fields, aliases.drop_first()),
        }
    }
}

pub open spec fn cpe_aliases() -> Seq<Seq<char>> {
    seq!["cpe"@, "cpe23"@, "cpe_uri"@, "uri"@]
}

pub open spec fn name_aliases() -> Seq<Seq<char>> {
    seq!["name"@, "component"@, "id"@, "product"@]
}

pub open spec fn owner_aliases() -> Seq<Seq<char>> {
    seq!["owner"@, "team"@, "vendor"@]
}

/// The trimmed field at `idx`; empty when there is no such column or field.
pub open spec fn cell(rec: Seq<Seq<char>>, idx: Option<int>) -> Seq<char> {
    match idx {
        Some(i) => if 0 <= i < rec.len() {
            trim(rec[i])
        } else {
            Seq::empty()
        },
        None => Seq::empty(),
    }
}

/// The row that record `rec`, on line `line`, gives: none when its CPE cell
/// is empty or starts with `#`, or holds no CPE.
pub open spec fn row_of(
    rec: Seq<Seq<char>>,
    line: int,
    cpe_idx: int,
    name_idx: Option<int>,
    owner_idx: Option<int>,
) -> Option<RowView> {
    let cpe = cell(rec, Some(cpe_idx));
    if cpe.len() == 0 || cpe[0] == '#' {
        None
    } else {
        match cpe_fields(cpe) {
            None => None,
            Some(p) => Some(
                RowView {
                    cpe: cpe,
                    name: cell(rec, name_idx),
                    owner: cell(rec, owner_idx),
                    line: line,
                    part: lower(p[2]),
                    vendor: lower(p[3]),
                    product: lower(p[4]),
                    version: p[5],
                    update: p[6],
                },
            ),
        }
    }
}

/// Line number of the `n`-th data record (the header is line 1), capped at
/// `usize::MAX`.
pub open spec fn line_number(n: int) -> int {
    if n + 1 <= usize::MAX {
        n + 1
    } else {
        usize::MAX as int
    }
}

/// Rows of the records, the first record being on line 2.
pub open spec fn rows_of(
    recs: Seq<Seq<Seq<char>>>,
    cpe_idx: int,
    name_idx: Option<int>,
    owner_idx: Option<int>,
) -> Seq<RowView>
    decreases recs.len(),
{
    if recs.len() == 0 {
        Seq::empty()
    } else {
        let before = rows_of(recs.drop_last(), cpe_idx, name_idx, owner_idx);
        match row_of(recs.last(), line_number(recs.len() as int), cpe_idx, name_idx, owner_idx) {
            Some(r) => before.push(r),
            None => before,
        }
    }
}

/// Each row comes from a CPE: its CPE cell is non-empty, does not start with
/// `#`, parses as a CPE, and part, vendor and product are that CPE's fields
/// in lowercase; version and update are its fields as written.
pub open spec fn row_from_cpe(r: RowView) -> bool {
    &&& r.cpe.len() > 0
    &&& r.cpe[0] != '#'
    &&& cpe_fields(r.cpe) is Some
    &&& r.part == lower(cpe_fields(r.cpe)->0[2])
    &&& r.vendor == lower(cpe_fields(r.cpe)->0[3])
    &&& r.product == lower(cpe_fields(r.cpe)->0[4])
    &&& r.version == cpe_fields(r.cpe)->0[5]
    &&& r.update == cpe_fields(r.cpe)->0[6]
    &&& lower(r.part) == r.part
    &&& lower(r.vendor) == r.vendor
    &&& lower(r.product) == r.product
}

/// Every row of an inventory comes from a parsed CPE, its identity fields
/// lowercased.
pub proof fn inventory_rows_from_cpes(
    recs: Seq<Seq<Seq<char>>>,
    cpe_idx: int,
    name_idx: Option<int>,
    owner_idx: Option<int>,
)
    ensures
        forall|i: int|
            0 <= i < rows_of(recs, cpe_idx, name_idx, owner_idx).len() ==> row_from_cpe(
                #[trigger] rows_of(recs, cpe_idx, name_idx, owner_idx)[i],
            ),
    decreases recs.len(),
{
    if recs.len() > 0 {
        inventory_rows_from_cpes(recs.drop_last(), cpe_idx, name_idx, owner_idx);
        let before = rows_of(recs.drop_last(), cpe_idx, name_idx, owner_idx);
        let all = rows_of(recs, cpe_idx, name_idx, owner_idx);
        match row_of(recs.last(), line_number(recs.len() as int), cpe_idx, name_idx, owner_idx) {
            Some(r) => {
                let p = cpe_fields(r.cpe)->0;
                lemma_lower_idempotent(p[2]);
                lemma_lower_idempotent(p[3]);
                lemma_lower_idempotent(p[4]);
                assert forall|i: int| 0 <= i < all.len() implies row_from_cpe(#[trigger] all[i]) by {
                    if i < before.len() {
                        assert(all[i] == before[i]);
                    }
                }
            },
            None => {},
        }
    }
}

/// The rows of an inventory come in line order, one per record at most:
/// line numbers rise from 2 (the line after the header) and stay within the
/// records' lines; they rise strictly except where both sit at the
/// `usize::MAX` cap, which needs `usize::MAX` records. Every row's CPE cell
/// is trimmed and comes from a parsed CPE, its identity fields lowercased.
pub proof fn inventory_rows_in_line_order(
    recs: Seq<Seq<Seq<char>>>,
    cpe_idx: int,
    name_idx: Option<int>,
    owner_idx: Option<int>,
)
    ensures
        forall|i: int|
            0 <= i < rows_of(recs, cpe_idx, name_idx, owner_idx).len() ==> {
                let r = #[trigger] rows_of(recs, cpe_idx, name_idx, owner_idx)[i];
                &&& row_from_cpe(r)
                &&& trim(r.cpe) == r.cpe
                &&& 2 <= r.line <= line_number(recs.len() as int)
            },
        forall|i: int, j: int|
            0 <= i < j < rows_of(recs, cpe_idx, name_idx, owner_idx).len() ==> (#[trigger] rows_of(
                recs,
                cpe_idx,
                name_idx,
                owner_idx,
            )[i]).line < (#[trigger] rows_of(recs, cpe_idx, name_idx, owner_idx)[j]).line || rows_of(
                recs,
                cpe_idx,
                name_idx,
                owner_idx,
            )[i].line == usize::MAX,
        recs.len() < usize::MAX ==> forall|i: int, j: int|
            0 <= i < j < rows_of(recs, cpe_idx, name_idx, owner_idx).len() ==> (#[trigger] rows_of(
                recs,
                cpe_idx,
                name_idx,
                owner_idx,
            )[i]).line < (#[trigger] rows_of(recs, cpe_idx, name_idx, owner_idx)[j]).line,
    decreases recs.len(),
{
    inventory_rows_from_cpes(recs, cpe_idx, name_idx, owner_idx);
    if recs.len() > 0 {
        inventory_rows_in_line_order(recs.drop_last(), cpe_idx, name_idx, owner_idx);
        let before = rows_of(recs.drop_last(), cpe_idx, name_idx, owner_idx);
        let all = rows_of(recs, cpe_idx, name_idx, owner_idx);
        match row_of(recs.last(), line_number(recs.len() as int), cpe_idx, name_idx, owner_idx) {
            Some(r) => {
                let last = recs.last();
                if 0 <= cpe_idx < last.len() {
                    lemma_trim_idempotent(last[cpe_idx]);
                }
                assert(all == before.push(r));
                assert forall|i: int| 0 <= i < all.len() implies ({
                    let x = #[trigger] all[i];
                    &&& row_from_cpe(x)
                    &&& trim(x.cpe) == x.cpe
                    &&& 2 <= x.line <= line_number(recs.len() as int)
                }) by {
                    if i < before.len() {
                        assert(all[i] == before[i]);
                    }
                }
                assert forall|i: int, j: int| 0 <= i < j < all.len() implies (#[trigger] all[i]).line
                    < (#[trigger] all[j]).line || all[i].line == usize::MAX by {
                    assert(all[i] == before[i]);
                    if j < before.len() {
                        assert(all[j] == before[j]);
                    }
                }
            },
            None => {},
        }
    }
}

/// Lines (number and CPE cell) whose CPE cell is non-empty, does not start
/// with `#`, and holds no CPE.
pub open spec fn skipped_of(recs: Seq<Seq<Seq<char>>>, cpe_idx: int) -> Seq<(int, Seq<char>)>
    decreases recs.len(),
{
    if recs.len() == 0 {
        Seq::empty()
    } else {
        let before = skipped_of(recs.drop_last(), cpe_idx);
        let cpe = cell(recs.last(), Some(cpe_idx));
        if cpe.len() > 0 && cpe[0] != '#' && cpe_fields(cpe) is None {
            before.push((line_number(recs.len() as int), cpe))
        } else {
            before
        }
    }
}

/// What reading an inventory CSV comes to.
pub enum InventoryOutcome {
    /// The CSV reader found no header record.
    NoHeader,
    /// The header record has no field.
    EmptyHeader,
    /// No header names a CPE column; the trimmed headers joined with `, `.
    NoCpeColumn(Seq<char>),
    /// The CSV reader failed on a data record.
    BadRecord,
    /// No record gave a row.
    NoRows,
    /// The rows and the skipped lines.
    Rows(Seq<RowView>, Seq<(int, Seq<char>)>),
}

/// The outcome of reading inventory CSV `text`.
pub open spec fn inventory_outcome(text: Seq<char>) -> InventoryOutcome {
    let body = without_bom(text);
    let delim = sniffed(body.take(line_end(body) as int));
    match csv_header_fields(body, delim) {
        None => InventoryOutcome::NoHeader,
        Some(h) => if h.len() == 0 {
            InventoryOutcome::EmptyHeader
        } else {
            let fields = h.map_values(|f: Seq<char>| trim(f));
            match lookup_in(fields, cpe_aliases()) {
                None => InventoryOutcome::NoCpeColumn(join(fields, ", "@)),
                Some(ci) => match csv_record_fields(body, delim) {
                    None => InventoryOutcome::BadRecord,
                    Some(recs) => {
                        let ni = lookup_in(fields, name_aliases());
                        let oi = lookup_in(fields, owner_aliases());
                        let rows = rows_of(recs, ci, ni, oi);
                        if rows.len() == 0 {
                            InventoryOutcome::NoRows
                        } else {
                            InventoryOutcome::Rows(rows, skipped_of(recs, ci))
                        }
                    },
                },
            }
        },
    }
}

pub open spec fn skipped_views(v: Seq<SkippedLine>) -> Seq<(int, Seq<char>)> {
    v.map_values(|s: SkippedLine| (s.line as int, s.cpe@))
}

/// `res` is what `outcome` says, message by message.
pub open spec fn reports(res: Result<Inventory, Error>, outcome: InventoryOutcome) -> bool {
    match outcome {
        InventoryOutcome::NoHeader => res matches Err(Error::Message(m)) && starts_with(
            m@,
            "CSV has no header row: "@,
        ),
        InventoryOutcome::EmptyHeader => res matches Err(Error::Message(m)) && m@
            == "CSV has no header row"@,
        InventoryOutcome::NoCpeColumn(got) => res matches Err(Error::Message(m)) && m@
            == "CSV needs a column named cpe (or cpe23 / cpe_uri). Got: "@ + got,
        InventoryOutcome::BadRecord => res matches Err(Error::Csv(_)),
        InventoryOutcome::NoRows => res matches Err(Error::Message(m)) && m@
            == "No usable CPE rows in CSV"@,
        InventoryOutcome::Rows(rows, skipped) => res matches Ok(inv) && row_views(inv.rows@)
            == rows && skipped_views(inv.skipped@) == skipped,
    }
}

// ---------------------------------------------------------------------------
// Executable functions
// ---------------------------------------------------------------------------

fn count_of(cs: &Vec<char>, c: char) -> (n: usize)
    ensures
        n == count_char(cs@, c),
{
    let mut n: usize = 0;
    let mut i: usize = 0;
    while i < cs.len()
        invariant
            i <= cs.len(),
            n == count_char(cs@.take(i as int), c),
            n <= i,
        decreases cs.len() - i,
    {
        assert(cs@.take(i + 1).drop_last() =~= cs@.take(i as int));
        if cs[i] == c {
            n += 1;
        }
        i += 1;
    }
    assert(cs@.take(cs.len() as int) =~= cs@);
    n
}

fn sniff_delimiter(header: &str) -> (d: u8)
    ensures
        d == sniffed(header@),
{
    let cs = chars_of(header);
    let commas = count_of(&cs, ',');
    let semis = count_of(&cs, ';');
    let tabs = count_of(&cs, '\t');
    if tabs > commas && tabs > semis {
        9u8
    } else if semis > commas {
        59u8
    } else {
        44u8
    }
}

fn position(fields: &[String], alias: &str) -> (r: Option<usize>)
    ensures
        match r {
            Some(i) => position_of(views(fields@), alias@) == Some(i as int),
            None => position_of(views(fields@), alias@) is None,
        },
{
    let ghost fv = views(fields@);
    let mut k: usize = 0;
    while k < fields.len()
        invariant
            k <= fields@.len(),
            fv == views(fields@),
            forall|m: int| 0 <= m < k ==> lower(#[trigger] fv[m]) != lower(alias@),
        decreases fields@.len() - k,
    {
        if eq_ignore_case(fields[k].as_str(), alias) {
            proof {
                lemma_position_first(fv, alias@, k as int);
            }
            return Some(k);
        }
        k += 1;
    }
    proof {
        lemma_position_first(fv, alias@, k as int);
    }
    None
}

fn lookup(fields: &[String], aliases: &[&str]) -> (r: Option<usize>)
    ensures
        match r {
            Some(i) => lookup_in(views(fields@), aliases@.map_values(|a: &str| a@)) == Some(
                i as int,
            ),
            None => lookup_in(views(fields@), aliases@.map_values(|a: &str| a@)) is None,
        },
{
    let ghost av = aliases@.map_values(|a: &str| a@);
    let mut k: usize = 0;
    assert(av.skip(0) =~= av);
    while k < aliases.len()
        invariant
            k <= aliases@.len(),
            av == aliases@.map_values(|a: &str| a@),
            lookup_in(views(fields@), av) == lookup_in(views(fields@), av.skip(k as int)),
        decreases aliases@.len() - k,
    {
        assert(av.skip(k as int)[0] == aliases@[k as int]@);
        if let Some(i) = position(fields, aliases[k]) {
            return Some(i);
        }
        assert(av.skip(k as int).drop_first() =~= av.skip(k + 1));
        k += 1;
    }
    None
}

fn cell_text(rec: &Vec<String>, idx: Option<usize>) -> (s: String)
    ensures
        s@ == cell(views(rec@), match idx {
            Some(i) => Some(i as int),
            None => None,
        }),
{
    match idx {
        Some(i) => if i < rec.len() {
            trimmed(rec[i].as_str())
        } else {
            String::new()
        },
        None => String::new(),
    }
}

fn header_line_of(body: &String) -> (h: String)
    ensures
        h@ == body@.take(line_end(body@) as int),
{
    let bc = chars_of(body.as_str());
    let mut e: usize = 0;
    assert(bc@.skip(0) =~= bc@);
    while e < bc.len() && bc[e] != '\n'
        invariant
            e <= bc.len(),
            bc@ == body@,
            line_end(bc@) == e + line_end(bc@.skip(e as int)),
        decreases bc.len() - e,
    {
        assert(bc@.skip(e as int).drop_first() =~= bc@.skip(e + 1));
        e += 1;
    }
    let h = string_of(&bc, 0, e);
    assert(h@ =~= body@.take(line_end(body@) as int));
    h
}

fn trimmed_fields(headers: &Vec<String>) -> (fields: Vec<String>)
    ensures
        views(fields@) == views(headers@).map_values(|f: Seq<char>| trim(f)),
{
    let mut fields: Vec<String> = Vec::new();
    let mut k: usize = 0;
    while k < headers.len()
        invariant
            k <= headers.len(),
            fields.len() == k,
            forall|m: int| 0 <= m < k ==> #[trigger] fields@[m]@ == trim(headers@[m]@),
        decreases headers.len() - k,
    {
        fields.push(trimmed(headers[k].as_str()));
        k += 1;
    }
    assert(views(fields@) =~= views(headers@).map_values(|f: Seq<char>| trim(f)));
    fields
}

pub open spec fn opt_int(o: Option<usize>) -> Option<int> {
    match o {
        Some(i) => Some(i as int),
        None => None,
    }
}

fn rows_from_records(
    records: &Vec<Vec<String>>,
    cpe_idx: usize,
    name_idx: Option<usize>,
    owner_idx: Option<usize>,
) -> (res: (Vec<InventoryRow>, Vec<SkippedLine>))
    ensures
        row_views(res.0@) == rows_of(
            record_views(records@),
            cpe_idx as int,
            opt_int(name_idx),
            opt_int(owner_idx),
        ),
        skipped_views(res.1@) == skipped_of(record_views(records@), cpe_idx as int),
{
    let ghost recs = record_views(records@);
    let ghost ci = cpe_idx as int;
    let ghost ni = opt_int(name_idx);
    let ghost oi = opt_int(owner_idx);
    let mut rows: Vec<InventoryRow> = Vec::new();
    let mut skipped: Vec<SkippedLine> = Vec::new();
    let mut i: usize = 0;
    while i < records.len()
        invariant
            i <= records.len(),
            recs == record_views(records@),
            row_views(rows@) == rows_of(recs.take(i as int), ci, ni, oi),
            skipped_views(skipped@) == skipped_of(recs.take(i as int), ci),
            ci == cpe_idx as int,
            ni == opt_int(name_idx),
            oi == opt_int(owner_idx),
        decreases records.len() - i,
    {
        assert(recs.take(i + 1).drop_last() =~= recs.take(i as int));
        assert(recs.take(i + 1).last() == views(records@[i as int]@));
        let line: usize = if i <= usize::MAX - 2 { i + 2 } else { usize::MAX };
        let rec = &records[i];
        let cpe = cell_text(rec, Some(cpe_idx));
        let ccs = chars_of(cpe.as_str());
        if ccs.len() == 0 || ccs[0] == '#' {
            i += 1;
            continue;
        }
        match split_cpe(cpe.as_str()) {
            None => {
                let ghost before = skipped_views(skipped@);
                skipped.push(SkippedLine { line, cpe });
                assert(skipped_views(skipped@) =~= before.push((line_number(i + 1), cpe@)));
            },
            Some(parts) => {
                let name = cell_text(rec, name_idx);
                let owner = cell_text(rec, owner_idx);
                let row = InventoryRow {
                    cpe,
                    name,
                    owner,
                    line,
                    part: ascii_lowercase(parts[2].as_str()),
                    vendor: ascii_lowercase(parts[3].as_str()),
                    product: ascii_lowercase(parts[4].as_str()),
                    version: parts[5].clone(),
                    update: parts[6].clone(),
                };
                let ghost before = row_views(rows@);
                rows.push(row);
                assert(row_views(rows@) =~= before.push(row@));
            },
        }
        i += 1;
    }
    assert(recs.take(records.len() as int) =~= recs);
    (rows, skipped)
}

/// The columns of an inventory: where the CPE, name and owner are.
#[derive(Debug, Clone, Copy, PartialEq, Eq)]
pub struct Columns {
    pub cpe: usize,
    pub name: Option<usize>,
    pub owner: Option<usize>,
}

/// Finds the inventory columns in the header record `headers`: the first
/// header (trimmed, in any case) that names a CPE column by one of its
/// aliases, in alias order, and likewise for the name and owner columns.
/// An empty header record and a header without a CPE column are errors.
pub fn inventory_columns(headers: &Vec<String>) -> (r: Result<Columns, Error>)
    ensures
        ({
            let fields = views(headers@).map_values(|f: Seq<char>| trim(f));
            if headers@.len() == 0 {
                r matches Err(Error::Message(m)) && m@ == "CSV has no header row"@
            } else {
                match lookup_in(fields, cpe_aliases()) {
                    None => r matches Err(Error::Message(m)) && m@
                        == "CSV needs a column named cpe (or cpe23 / cpe_uri). Got: "@ + join(
                        fields,
                        ", "@,
                    ),
                    Some(ci) => r matches Ok(c) && c.cpe == ci && opt_int(c.name) == lookup_in(
                        fields,
                        name_aliases(),
                    ) && opt_int(c.owner) == lookup_in(fields, owner_aliases()),
                }
            }
        }),
{
    if headers.len() == 0 {
        return Err(Error::msg("CSV has no header row"));
    }
    let fields = trimmed_fields(headers);
    let cpe_aliases_v = ["cpe", "cpe23", "cpe_uri", "uri"];
    assert(cpe_aliases_v@.map_values(|a: &str| a@) =~= cpe_aliases());
    let cpe = match lookup(fields.as_slice(), &cpe_aliases_v) {
        Some(i) => i,
        None => {
            let mut m = "CSV needs a column named cpe (or cpe23 / cpe_uri). Got: ".to_owned();
            let got = join_strings(&fields, ", ");
            push_str(&mut m, got.as_str());
            return Err(Error::Message(m));
        },
    };
    let name_aliases_v = ["name", "component", "id", "product"];
    assert(name_aliases_v@.map_values(|a: &str| a@) =~= name_aliases());
    let name = lookup(fields.as_slice(), &name_aliases_v);
    let owner_aliases_v = ["owner", "team", "vendor"];
    assert(owner_aliases_v@.map_values(|a: &str| a@) =~= owner_aliases());
    let owner = lookup(fields.as_slice(), &owner_aliases_v);
    Ok(Columns { cpe, name, owner })
}

/// The inventory of the data records `records` (the header record left
/// out) read through `cols`: a row for each record whose CPE cell parses,
/// a skipped line for each whose CPE cell does not (blank cells and `#`
/// comments are left out), and an error when no row comes out.
pub fn inventory_from_records(records: &Vec<Vec<String>>, cols: Columns) -> (r: Result<
    Inventory,
    Error,
>)
    ensures
        ({
            let recs = record_views(records@);
            let rows = rows_of(recs, cols.cpe as int, opt_int(cols.name), opt_int(cols.owner));
            if rows.len() == 0 {
                r matches Err(Error::Message(m)) && m@ == "No usable CPE rows in CSV"@
            } else {
                r matches Ok(inv) && row_views(inv.rows@) == rows && skipped_views(inv.skipped@)
                    == skipped_of(recs, cols.cpe as int)
            }
        }),
{
    let (rows, skipped) = rows_from_records(records, cols.cpe, cols.name, cols.owner);
    if rows.len() == 0 {
        return Err(Error::msg("No usable CPE rows in CSV"));
    }
    Ok(Inventory { rows, skipped })
}

/// Reads the inventory from the text of a CSV file.
pub fn parse_text(text: &str) -> (res: Result<Inventory, Error>)
    ensures
        reports(res, inventory_outcome(text@)),
        res matches Ok(inv) ==> {
            let rows = row_views(inv.rows@);
            &&& rows.len() > 0
            &&& forall|i: int|
                0 <= i < rows.len() ==> row_from_cpe(#[trigger] rows[i]) && trim(rows[i].cpe)
                    == rows[i].cpe && rows[i].line >= 2
            &&& forall|i: int, j: int|
                0 <= i < j < rows.len() ==> (#[trigger] rows[i]).line < (#[trigger] rows[j]).line
                    || rows[i].line == usize::MAX
        },
{
    let all = chars_of(text);
    let start: usize = if all.len() > 0 && all[0] == '\u{feff}' { 1 } else { 0 };
    let body = string_of(&all, start, all.len());
    assert(body@ =~= without_bom(text@));
    let header_line = header_line_of(&body);
    let delim = sniff_delimiter(header_line.as_str());
    let headers = match read_csv_headers(body.as_str(), delim) {
        Ok(h) => h,
        Err(err) => {
            let mut m = "CSV has no header row: ".to_owned();
            push_str(&mut m, err.as_str());
            assert(m@.subrange(0, "CSV has no header row: "@.len() as int) =~= "CSV has no header row: "@);
            return Err(Error::Message(m));
        },
    };
    let cols = inventory_columns(&headers)?;
    let records = match read_csv_records(body.as_str(), delim) {
        Ok(r) => r,
        Err(err) => {
            return Err(Error::Csv(err));
        },
    };
    let res = inventory_from_records(&records, cols);
    proof {
        inventory_rows_in_line_order(
            record_views(records@),
            cols.cpe as int,
            opt_int(cols.name),
            opt_int(cols.owner),
        );
    }
    res
}

} // verus!
