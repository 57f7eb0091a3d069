//! CPE parsing, version comparison and matching of inventory rows against
//! NVD configurations.
use vstd::prelude::*;
use std::cmp::Ordering;
use vstd::multiset::Multiset;

use crate::csv_inv::InventoryRow;
use crate::db::{Configuration, CpeMatch, Node, StoredCve};
use crate::text::{
    ascii_lowercase, ascii_uppercase, char_is_alpha, char_is_digit, char_lower, chars_lt, chars_of, has_prefix,
    is_ascii_alpha, is_ascii_digit, lower, lower_char, push_char, split, split_at_char, starts_with,
    lemma_chars_lt_asymmetric, lemma_chars_lt_irreflexive, lemma_chars_lt_total, lemma_chars_lt_transitive, lemma_split_concat, lemma_split_single, lemma_trim_end_after,
    lemma_trim_start_nonspace, lemma_upper_idempotent, str_equal, trim_end,
    str_less, string_of, trim, trimmed, upper, views,
};

verus! {

/// One finding: an inventory row that a High or Critical CVE's
/// configuration matches. `score` is the CVSS base score in tenths.
#[derive(Debug, Clone, PartialEq)]
pub struct Hit {
    pub cve_id: String,
    pub severity: String,
    pub score: Option<u32>,
    pub inventory: InventoryRow,
    pub matched_criteria: String,
    pub published: String,
    pub description: String,
}

/// A finding with its texts taken as character sequences.
pub struct HitView {
    pub cve_id: Seq<char>,
    pub severity: Seq<char>,
    pub score: Option<u32>,
    pub inventory: InventoryRow,
    pub matched_criteria: Seq<char>,
    pub published: Seq<char>,
    pub description: Seq<char>,
}

impl View for Hit {
    type V = HitView;

    open spec fn view(&self) -> HitView {
        HitView {
            cve_id: self.cve_id@,
            severity: self.severity@,
            score: self.score,
            inventory: self.inventory,
            matched_criteria: self.matched_criteria@,
            published: self.published@,
            description: self.description@,
        }
    }
}

pub open spec fn hit_views(v: Seq<Hit>) -> Seq<HitView> {
    v.map_values(|h: Hit| h@)
}

// ---------------------------------------------------------------------------
// Severity
// ---------------------------------------------------------------------------

/// Rank of a severity name, case-insensitively: CRITICAL 4, HIGH 3,
/// MEDIUM 2, LOW 1, anything else 0.
pub open spec fn rank_of(sev: Seq<char>) -> u8 {
    let u = upper(sev);
    if u == "CRITICAL"@ {
        4
    } else if u == "HIGH"@ {
        3
    } else if u == "MEDIUM"@ {
        2
    } else if u == "LOW"@ {
        1
    } else {
        0
    }
}

/// HIGH or CRITICAL, case-insensitively.
pub open spec fn high_or_critical(sev: Seq<char>) -> bool {
    upper(sev) == "HIGH"@ || upper(sev) == "CRITICAL"@
}

/// A severity is High or Critical exactly when its rank is 3 or more.
pub proof fn high_or_critical_is_top_rank(sev: Seq<char>)
    ensures
        high_or_critical(sev) <==> rank_of(sev) >= 3,
{
    reveal_strlit("CRITICAL");
    reveal_strlit("HIGH");
    reveal_strlit("MEDIUM");
    reveal_strlit("LOW");
    assert("CRITICAL"@.len() != "HIGH"@.len());
}

pub fn severity_rank(sev: &str) -> (r: u8)
    ensures
        r == rank_of(sev@),
{
    let u = ascii_uppercase(sev);
    if str_equal(u.as_str(), "CRITICAL") {
        4
    } else if str_equal(u.as_str(), "HIGH") {
        3
    } else if str_equal(u.as_str(), "MEDIUM") {
        2
    } else if str_equal(u.as_str(), "LOW") {
        1
    } else {
        0
    }
}

pub fn is_high_or_critical(sev: &str) -> (r: bool)
    ensures
        r == high_or_critical(sev@),
{
    let u = ascii_uppercase(sev);
    str_equal(u.as_str(), "HIGH") || str_equal(u.as_str(), "CRITICAL")
}

// ---------------------------------------------------------------------------
// CPE fields
// ---------------------------------------------------------------------------

/// `p` cut to its first 13 fields, or extended with `*` fields up to 13.
pub open spec fn pad_fields(p: Seq<Seq<char>>) -> Seq<Seq<char>> {
    if p.len() >= 13 {
        p.take(13)
    } else {
        p + Seq::new((13 - p.len()) as nat, |i: int| "*"@)
    }
}

/// The fields of a CPE 2.3 name (`cpe:2.3:part:vendor:product:version:...`)
/// or of a legacy CPE 2.2 URI (`cpe:/part:vendor:product:...`, read as if it
/// were written `cpe:2.3:part:vendor:...`), as exactly 13 fields: padded
/// with `*`, or cut after the thirteenth; `None` for anything else or too
/// few fields.
pub open spec fn cpe_fields(cpe: Seq<char>) -> Option<Seq<Seq<char>>> {
    let raw = trim(cpe);
    if starts_with(raw, "cpe:2.3:"@) {
        let parts = split(raw, ':');
        if parts.len() < 6 {
            None
        } else {
            Some(pad_fields(parts))
        }
    } else if starts_with(raw, "cpe:/"@) {
        let bits = split(raw.skip("cpe:/"@.len() as int), ':');
        if bits.len() < 3 {
            None
        } else {
            Some(pad_fields(seq!["cpe"@, "2.3"@] + bits))
        }
    } else {
        None
    }
}

/// A legacy CPE 2.2 URI gives the fields of the CPE 2.3 name with the same
/// components, whenever that name has the at least six fields it needs
/// (`cpe:/a:v:p` with three components is a URI but `cpe:2.3:a:v:p` is no
/// name).
pub proof fn legacy_uri_reads_as_name(x: Seq<char>)
    requires
        split(trim_end(x), ':').len() >= 4,
    ensures
        cpe_fields("cpe:/"@ + x) == cpe_fields("cpe:2.3:"@ + x),
{
    reveal_strlit("cpe:/");
    reveal_strlit("cpe:2.3:");
    reveal_strlit("cpe");
    reveal_strlit("2.3");
    let l = "cpe:/"@;
    let n = "cpe:2.3:"@;
    let xt = trim_end(x);
    lemma_trim_end_after(l, x);
    lemma_trim_end_after(n, x);
    lemma_trim_start_nonspace(l + x);
    lemma_trim_start_nonspace(n + x);
    assert(trim(l + x) == l + xt);
    assert(trim(n + x) == n + xt);
    let raw_l = l + xt;
    let raw_n = n + xt;
    assert(raw_n.subrange(0, n.len() as int) =~= n);
    assert(starts_with(raw_n, n));
    assert(!starts_with(raw_l, n)) by {
        if raw_l.len() >= n.len() {
            assert(raw_l.subrange(0, n.len() as int)[4] != n[4]);
        }
    }
    assert(raw_l.subrange(0, l.len() as int) =~= l);
    assert(starts_with(raw_l, l));
    assert(raw_l.skip(l.len() as int) =~= xt);
    let c = "cpe"@;
    let v = "2.3"@;
    lemma_split_single(c, ':');
    lemma_split_single(v, ':');
    assert(c.push(':').drop_last() =~= c);
    assert(v.push(':').drop_last() =~= v);
    assert(split(c.push(':'), ':') == split(c, ':').push(Seq::empty()));
    assert(split(v.push(':'), ':') == split(v, ':').push(Seq::empty()));
    assert(n =~= c.push(':') + v.push(':'));
    lemma_split_concat(c.push(':'), v.push(':'), ':');
    assert(split(n, ':') =~= seq!["cpe"@, "2.3"@, Seq::empty()]);
    lemma_split_concat(n, xt, ':');
    assert(split(raw_n, ':') =~= seq!["cpe"@, "2.3"@] + split(xt, ':'));
}

fn pad_to_13(parts: &mut Vec<String>)
    ensures
        views(final(parts)@) == pad_fields(views(old(parts)@)),
        final(parts).len() == 13,
{
    let ghost start = views(parts@);
    while parts.len() < 13
        invariant
            start.len() <= parts.len(),
            start.len() < 13 ==> parts.len() <= 13,
            start.len() >= 13 ==> parts.len() == start.len(),
            views(parts@).len() == parts.len(),
            views(parts@) == (if start.len() >= 13 {
                start
            } else {
                start + Seq::new((parts.len() - start.len()) as nat, |i: int| "*"@)
            }),
        decreases 13 - parts.len(),
    {
        let ghost before = views(parts@);
        parts.push("*".to_owned());
        assert(views(parts@) =~= before.push("*"@));
        assert(start + Seq::new((parts.len() - start.len()) as nat, |i: int| "*"@) =~= (start
            + Seq::new((parts.len() - 1 - start.len()) as nat, |i: int| "*"@)).push("*"@));
    }
    let ghost full = parts@;
    parts.truncate(13);
    assert(views(parts@) =~= pad_fields(start)) by {
        if start.len() < 13 {
            assert(full.len() == 13);
            assert(parts@ =~= full);
        } else {
            assert(views(full) == start);
            assert(views(parts@) =~= views(full).take(13));
        }
    }
}

/// Parse CPE 2.3 (`cpe:2.3:…`) or legacy 2.2 (`cpe:/…`) into 13 fields.
pub fn split_cpe(cpe: &str) -> (res: Option<Vec<String>>)
    ensures
        match res {
            Some(v) => cpe_fields(cpe@) == Some(views(v@)) && v.len() == 13,
            None => cpe_fields(cpe@) is None,
        },
{
    let raw = trimmed(cpe);
    if has_prefix(raw.as_str(), "cpe:2.3:") {
        let mut parts = split_at_char(raw.as_str(), ':');
        if parts.len() < 6 {
            return None;
        }
        pad_to_13(&mut parts);
        return Some(parts);
    }
    if has_prefix(raw.as_str(), "cpe:/") {
        let cs = chars_of(raw.as_str());
        let pcs = chars_of("cpe:/");
        let plen = pcs.len();
        assert(plen == "cpe:/"@.len());
        let body = string_of(&cs, plen, cs.len());
        assert(body@ =~= raw@.skip("cpe:/"@.len() as int));
        let bits = split_at_char(body.as_str(), ':');
        if bits.len() < 3 {
            return None;
        }
        let mut parts: Vec<String> = Vec::new();
        parts.push("cpe".to_owned());
        parts.push("2.3".to_owned());
        let mut i: usize = 0;
        while i < bits.len()
            invariant
                i <= bits.len(),
                views(parts@) == seq!["cpe"@, "2.3"@] + views(bits@).take(i as int),
            decreases bits.len() - i,
        {
            let ghost before = views(parts@);
            parts.push(bits[i].clone());
            assert(views(parts@) =~= before.push(bits@[i as int]@));
            assert(views(bits@).take(i + 1) =~= views(bits@).take(i as int).push(bits@[i as int]@));
            i += 1;
        }
        assert(views(bits@).take(bits.len() as int) =~= views(bits@));
        pad_to_13(&mut parts);
        return Some(parts);
    }
    None
}

// ---------------------------------------------------------------------------
// Version tokens
// ---------------------------------------------------------------------------

/// A version token: a run of digits (its value, saturating at `u64::MAX`)
/// or a run of ASCII letters (lowercased).
pub enum Token {
    Num(u64),
    Alpha(Seq<char>),
}

pub(crate) enum VerTok {
    Num(u64),
    Alpha(String),
}

impl View for VerTok {
    type V = Token;

    closed spec fn view(&self) -> Token {
        match self {
            VerTok::Num(n) => Token::Num(*n),
            VerTok::Alpha(s) => Token::Alpha(s@),
        }
    }
}

pub open spec fn tok_views(v: Seq<VerTok>) -> Seq<Token> {
    v.map_values(|t: VerTok| t@)
}

pub open spec fn in_class(c: char, digits: bool) -> bool {
    if digits {
        is_ascii_digit(c)
    } else {
        is_ascii_alpha(c)
    }
}

/// Length of the run of digits (or letters) at the start of `s`.
pub open spec fn run_len(s: Seq<char>, digits: bool) -> nat
    decreases s.len(),
{
    if s.len() > 0 && in_class(s[0], digits) {
        1 + run_len(s.drop_first(), digits)
    } else {
        0
    }
}

/// `n * 10 + d`, saturating at `u64::MAX`.
pub open spec fn sat_step(n: u64, d: nat) -> u64 {
    let m: int = if n * 10 > u64::MAX {
        u64::MAX as int
    } else {
        n * 10
    };
    if m + d > u64::MAX {
        u64::MAX
    } else {
        (m + d) as u64
    }
}

pub open spec fn digit_value(c: char) -> nat {
    ((c as int) - 48) as nat
}

/// Value of a run of decimal digits, saturating at `u64::MAX`.
pub open spec fn digits_value(d: Seq<char>) -> u64
    decreases d.len(),
{
    if d.len() == 0 {
        0
    } else {
        sat_step(digits_value(d.drop_last()), digit_value(d.last()))
    }
}

pub proof fn lemma_run_len_bound(s: Seq<char>, digits: bool)
    ensures
        run_len(s, digits) <= s.len(),
    decreases s.len(),
{
    if s.len() > 0 && in_class(s[0], digits) {
        lemma_run_len_bound(s.drop_first(), digits);
    }
}

/// The tokens of a version string: runs of digits and runs of letters;
/// every other character only separates tokens.
pub open spec fn tokens(s: Seq<char>) -> Seq<Token>
    decreases s.len(),
{
    if s.len() == 0 {
        Seq::empty()
    } else if is_ascii_digit(s[0]) {
        let k = run_len(s, true);
        proof {
            lemma_run_len_bound(s, true);
        }
        seq![Token::Num(digits_value(s.take(k as int)))] + tokens(s.skip(k as int))
    } else if is_ascii_alpha(s[0]) {
        let k = run_len(s, false);
        proof {
            lemma_run_len_bound(s, false);
        }
        seq![Token::Alpha(lower(s.take(k as int)))] + tokens(s.skip(k as int))
    } else {
        tokens(s.drop_first())
    }
}

proof fn lemma_run_len_prefix(x: Seq<char>, w: Seq<char>, digits: bool)
    requires
        w.len() > 0,
        !in_class(w[0], digits),
    ensures
        run_len(x + w, digits) == run_len(x, digits),
    decreases x.len(),
{
    if x.len() == 0 {
        assert(x + w =~= w);
    } else {
        assert((x + w)[0] == x[0]);
        assert((x + w).drop_first() =~= x.drop_first() + w);
        lemma_run_len_prefix(x.drop_first(), w, digits);
    }
}

/// A separator (neither digit nor letter) between two texts splits their
/// tokens: the tokens of the whole are those of the left part, then those
/// of the right part.
pub proof fn tokens_split_at_separator(x: Seq<char>, sep: char, y: Seq<char>)
    requires
        !is_ascii_digit(sep),
        !is_ascii_alpha(sep),
    ensures
        tokens(x + seq![sep] + y) == tokens(x) + tokens(y),
    decreases x.len(),
{
    let s = x + seq![sep] + y;
    let w = seq![sep] + y;
    assert(s =~= x + w);
    if x.len() == 0 {
        assert(s[0] == sep);
        assert(s.drop_first() =~= y);
        assert(tokens(x) =~= Seq::<Token>::empty());
        assert(tokens(x) + tokens(y) =~= tokens(y));
    } else if is_ascii_digit(x[0]) || is_ascii_alpha(x[0]) {
        let d = is_ascii_digit(x[0]);
        assert(w[0] == sep);
        lemma_run_len_prefix(x, w, d);
        lemma_run_len_bound(x, d);
        let k = run_len(x, d) as int;
        assert(s[0] == x[0]);
        assert(k >= 1);
        assert(s.take(k) =~= x.take(k));
        assert(s.skip(k) =~= x.skip(k) + seq![sep] + y);
        tokens_split_at_separator(x.skip(k), sep, y);
        if d {
            assert(tokens(s) =~= seq![Token::Num(digits_value(x.take(k)))] + (tokens(x.skip(k)) + tokens(y)));
        } else {
            assert(tokens(s) =~= seq![Token::Alpha(lower(x.take(k)))] + (tokens(x.skip(k)) + tokens(y)));
        }
    } else {
        assert(s[0] == x[0]);
        assert(s.drop_first() =~= x.drop_first() + seq![sep] + y);
        tokens_split_at_separator(x.drop_first(), sep, y);
    }
}

proof fn lemma_run_exact(s: Seq<char>, i: int, j: int, digits: bool)
    requires
        0 <= i <= j <= s.len(),
        forall|k: int| i <= k < j ==> in_class(#[trigger] s[k], digits),
        j == s.len() || !in_class(s[j], digits),
    ensures
        run_len(s.skip(i), digits) == j - i,
    decreases j - i,
{
    if i < j {
        assert(s.skip(i).drop_first() =~= s.skip(i + 1));
        lemma_run_exact(s, i + 1, j, digits);
    } else if j < s.len() {
        assert(s.skip(i)[0] == s[j]);
    }
}

fn push_token(out: &mut Vec<VerTok>, t: VerTok)
    ensures
        tok_views(final(out)@) == tok_views(old(out)@).push(t@),
{
    out.push(t);
    assert(tok_views(out@) =~= tok_views(old(out)@).push(t@));
}

fn version_tuple(ver: &str) -> (res: Vec<VerTok>)
    ensures
        tok_views(res@) == tokens(ver@),
{
    let cs = chars_of(ver);
    let n = cs.len();
    let mut out: Vec<VerTok> = Vec::new();
    let mut i: usize = 0;
    assert(cs@.skip(0) =~= cs@);
    while i < n
        invariant
            i <= n == cs@.len(),
            cs@ == ver@,
            tokens(ver@) == tok_views(out@) + tokens(cs@.skip(i as int)),
        decreases n - i,
    {
        let c = cs[i];
        let ghost rest = cs@.skip(i as int);
        if char_is_digit(c) {
            let mut v: u64 = 0;
            let mut j = i;
            while j < n && char_is_digit(cs[j])
                invariant
                    i <= j <= n == cs@.len(),
                    forall|k: int| i <= k < j ==> in_class(#[trigger] cs@[k], true),
                    v == digits_value(cs@.subrange(i as int, j as int)),
                decreases n - j,
            {
                let d = (cs[j] as u8) - 48;
                assert(cs@.subrange(i as int, j + 1).drop_last() =~= cs@.subrange(i as int, j as int));
                let m: u64 = if v > u64::MAX / 10 { u64::MAX } else { v * 10 };
                v = if m > u64::MAX - (d as u64) { u64::MAX } else { m + (d as u64) };
                j += 1;
            }
            proof {
                lemma_run_exact(cs@, i as int, j as int, true);
                assert(rest.take(j - i) =~= cs@.subrange(i as int, j as int));
                assert(rest.skip(j - i) =~= cs@.skip(j as int));
            }
            push_token(&mut out, VerTok::Num(v));
            i = j;
        } else if char_is_alpha(c) {
            let mut s = String::new();
            let mut j = i;
            while j < n && char_is_alpha(cs[j])
                invariant
                    i <= j <= n == cs@.len(),
                    forall|k: int| i <= k < j ==> in_class(#[trigger] cs@[k], false),
                    s@ == lower(cs@.subrange(i as int, j as int)),
                decreases n - j,
            {
                push_char(&mut s, char_lower(cs[j]));
                assert(lower(cs@.subrange(i as int, j + 1)) =~= lower(cs@.subrange(i as int, j as int)).push(lower_char(cs@[j as int])));
                j += 1;
            }
            proof {
                lemma_run_exact(cs@, i as int, j as int, false);
                assert(rest.take(j - i) =~= cs@.subrange(i as int, j as int));
                assert(rest.skip(j - i) =~= cs@.skip(j as int));
            }
            push_token(&mut out, VerTok::Alpha(s));
            i = j;
        } else {
            assert(rest.drop_first() =~= cs@.skip(i + 1));
            i += 1;
        }
    }
    assert(tok_views(out@) + tokens(cs@.skip(n as int)) =~= tok_views(out@));
    out
}

// ---------------------------------------------------------------------------
// Version order
// ---------------------------------------------------------------------------

/// Order of two tokens as -1, 0 or 1: numbers by value, any number before
/// any word, words lexicographically.
pub open spec fn tok_order(a: Token, b: Token) -> int {
    match (a, b) {
        (Token::Num(x), Token::Num(y)) => if x < y {
            -1
        } else if x == y {
            0
        } else {
            1
        },
        (Token::Num(_), Token::Alpha(_)) => -1,
        (Token::Alpha(_), Token::Num(_)) => 1,
        (Token::Alpha(x), Token::Alpha(y)) => if chars_lt(x, y) {
            -1
        } else if x == y {
            0
        } else {
            1
        },
    }
}

/// Lexicographic order of token sequences as -1, 0 or 1.
pub open spec fn lex_order(a: Seq<Token>, b: Seq<Token>) -> int
    decreases a.len(),
{
    if a.len() == 0 && b.len() == 0 {
        0
    } else if a.len() == 0 {
        -1
    } else if b.len() == 0 {
        1
    } else if tok_order(a[0], b[0]) != 0 {
        tok_order(a[0], b[0])
    } else {
        lex_order(a.drop_first(), b.drop_first())
    }
}

/// `t` extended with `Num(0)` tokens to length `n`.
pub open spec fn padded(t: Seq<Token>, n: nat) -> Seq<Token> {
    Seq::new(n, |i: int| if i < t.len() { t[i] } else { Token::Num(0) })
}

/// Order of two version strings as -1, 0 or 1: their token sequences,
/// the shorter one extended with zeros, compared lexicographically.
pub open spec fn version_order(a: Seq<char>, b: Seq<char>) -> int {
    let ta = tokens(a);
    let tb = tokens(b);
    let n = if ta.len() >= tb.len() { ta.len() } else { tb.len() };
    lex_order(padded(ta, n), padded(tb, n))
}

proof fn lemma_tok_order_facts(x: Token, y: Token)
    ensures
        tok_order(x, x) == 0,
        tok_order(x, y) == -tok_order(y, x),
        tok_order(x, y) == 0 ==> x == y,
        -1 <= tok_order(x, y) <= 1,
{
    match (x, y) {
        (Token::Alpha(p), Token::Alpha(q)) => {
            lemma_chars_lt_irreflexive(p);
            lemma_chars_lt_asymmetric(p, q);
            lemma_chars_lt_total(p, q);
        },
        (Token::Alpha(p), _) => {
            lemma_chars_lt_irreflexive(p);
        },
        _ => {},
    }
}

proof fn lemma_tok_order_transitive(x: Token, y: Token, z: Token)
    requires
        tok_order(x, y) < 0,
        tok_order(y, z) < 0,
    ensures
        tok_order(x, z) < 0,
{
    match (x, y, z) {
        (Token::Alpha(p), Token::Alpha(q), Token::Alpha(r)) => {
            lemma_chars_lt_transitive(p, q, r);
        },
        _ => {},
    }
}

proof fn lemma_lex_reflexive(a: Seq<Token>)
    ensures
        lex_order(a, a) == 0,
    decreases a.len(),
{
    if a.len() > 0 {
        lemma_tok_order_facts(a[0], a[0]);
        lemma_lex_reflexive(a.drop_first());
    }
}

proof fn lemma_lex_antisymmetric(a: Seq<Token>, b: Seq<Token>)
    ensures
        lex_order(a, b) == -lex_order(b, a),
        -1 <= lex_order(a, b) <= 1,
    decreases a.len(),
{
    if a.len() > 0 && b.len() > 0 {
        lemma_tok_order_facts(a[0], b[0]);
        lemma_lex_antisymmetric(a.drop_first(), b.drop_first());
    }
}

proof fn lemma_lex_transitive(a: Seq<Token>, b: Seq<Token>, c: Seq<Token>)
    requires
        lex_order(a, b) <= 0,
        lex_order(b, c) <= 0,
        a.len() == b.len(),
        b.len() == c.len(),
    ensures
        lex_order(a, c) <= 0,
        lex_order(a, b) < 0 || lex_order(b, c) < 0 ==> lex_order(a, c) < 0,
    decreases a.len(),
{
    if a.len() > 0 {
        lemma_tok_order_facts(a[0], b[0]);
        lemma_tok_order_facts(b[0], c[0]);
        lemma_tok_order_facts(a[0], c[0]);
        if tok_order(a[0], b[0]) < 0 && tok_order(b[0], c[0]) < 0 {
            lemma_tok_order_transitive(a[0], b[0], c[0]);
        }
        if tok_order(a[0], b[0]) == 0 && tok_order(b[0], c[0]) == 0 {
            lemma_lex_transitive(a.drop_first(), b.drop_first(), c.drop_first());
        }
    }
}

proof fn lemma_lex_append_equal(a: Seq<Token>, b: Seq<Token>, z: Seq<Token>)
    requires
        a.len() == b.len(),
    ensures
        lex_order(a + z, b + z) == lex_order(a, b),
    decreases a.len(),
{
    if a.len() == 0 {
        assert(a + z =~= z);
        assert(b + z =~= z);
        lemma_lex_reflexive(z);
    } else {
        assert((a + z)[0] == a[0]);
        assert((b + z)[0] == b[0]);
        assert((a + z).drop_first() =~= a.drop_first() + z);
        assert((b + z).drop_first() =~= b.drop_first() + z);
        lemma_lex_append_equal(a.drop_first(), b.drop_first(), z);
    }
}

proof fn lemma_padded_longer(t: Seq<Token>, n: nat, m: nat)
    requires
        t.len() <= n <= m,
    ensures
        padded(t, m) == padded(t, n) + padded(Seq::empty(), (m - n) as nat),
{
    assert(padded(t, m) =~= padded(t, n) + padded(Seq::empty(), (m - n) as nat));
}

proof fn lemma_version_order_at(a: Seq<char>, b: Seq<char>, m: nat)
    requires
        tokens(a).len() <= m,
        tokens(b).len() <= m,
    ensures
        version_order(a, b) == lex_order(padded(tokens(a), m), padded(tokens(b), m)),
{
    let ta = tokens(a);
    let tb = tokens(b);
    let n = if ta.len() >= tb.len() { ta.len() } else { tb.len() };
    lemma_padded_longer(ta, n, m);
    lemma_padded_longer(tb, n, m);
    lemma_lex_append_equal(padded(ta, n), padded(tb, n), padded(Seq::empty(), (m - n) as nat));
}

/// A trailing `.0` component does not change a version (`1.2` equals
/// `1.2.0`).
pub proof fn trailing_zero_is_equal(a: Seq<char>)
    ensures
        version_order(a + ".0"@, a) == 0,
{
    reveal_strlit(".0");
    let z = seq!['0'];
    assert(a + ".0"@ =~= a + seq!['.'] + z);
    tokens_split_at_separator(a, '.', z);
    assert(z.drop_first() =~= Seq::<char>::empty());
    assert(run_len(z.drop_first(), true) == 0);
    assert(run_len(z, true) == 1);
    assert(z.take(1) =~= z);
    assert(z.take(1).drop_last() =~= Seq::<char>::empty());
    assert(digits_value(Seq::<char>::empty()) == 0);
    assert(z.take(1).last() == '0');
    assert(digit_value('0') == 0);
    assert(sat_step(0, 0) == 0);
    assert(digits_value(z.take(1)) == 0);
    assert(z.skip(1) =~= Seq::<char>::empty());
    assert(is_ascii_digit(z[0]));
    assert(tokens(z.skip(1)).len() == 0);
    assert(tokens(z) == seq![Token::Num(digits_value(z.take(1)))] + tokens(z.skip(1)));
    assert(tokens(z) =~= seq![Token::Num(0)]);
    let ta = tokens(a);
    let tz = ta + seq![Token::Num(0)];
    assert(tokens(a + ".0"@) == tz);
    let n = tz.len();
    assert(padded(tz, n) =~= padded(ta, n));
    lemma_lex_reflexive(padded(ta, n));
}

/// Every version equals itself.
pub proof fn version_order_reflexive(a: Seq<char>)
    ensures
        version_order(a, a) == 0,
{
    let t = tokens(a);
    lemma_lex_reflexive(padded(t, t.len()));
}

/// Swapping the versions reverses the order; the order is -1, 0 or 1.
pub proof fn version_order_antisymmetric(a: Seq<char>, b: Seq<char>)
    ensures
        version_order(a, b) == -version_order(b, a),
        -1 <= version_order(a, b) <= 1,
{
    let ta = tokens(a);
    let tb = tokens(b);
    let n = if ta.len() >= tb.len() { ta.len() } else { tb.len() };
    lemma_lex_antisymmetric(padded(ta, n), padded(tb, n));
}

/// The order is transitive: a version not after a second, which is not
/// after a third, is not after the third (and strictly before it when one
/// of the steps is strict).
pub proof fn version_order_transitive(a: Seq<char>, b: Seq<char>, c: Seq<char>)
    requires
        version_order(a, b) <= 0,
        version_order(b, c) <= 0,
    ensures
        version_order(a, c) <= 0,
        version_order(a, b) < 0 || version_order(b, c) < 0 ==> version_order(a, c) < 0,
{
    let ta = tokens(a);
    let tb = tokens(b);
    let tc = tokens(c);
    let m0 = if ta.len() >= tb.len() { ta.len() } else { tb.len() };
    let m = if m0 >= tc.len() { m0 } else { tc.len() };
    lemma_version_order_at(a, b, m);
    lemma_version_order_at(b, c, m);
    lemma_version_order_at(a, c, m);
    lemma_lex_transitive(padded(ta, m), padded(tb, m), padded(tc, m));
}

fn tok_compare(a: &VerTok, b: &VerTok) -> (r: i8)
    ensures
        r == tok_order(a@, b@),
{
    match (a, b) {
        (VerTok::Num(x), VerTok::Num(y)) => if *x < *y {
            -1
        } else if *x == *y {
            0
        } else {
            1
        },
        (VerTok::Num(_), VerTok::Alpha(_)) => -1,
        (VerTok::Alpha(_), VerTok::Num(_)) => 1,
        (VerTok::Alpha(x), VerTok::Alpha(y)) => if str_less(x.as_str(), y.as_str()) {
            -1
        } else if *x == *y {
            0
        } else {
            1
        },
    }
}

fn pad_tokens(t: &mut Vec<VerTok>, n: usize)
    requires
        old(t).len() <= n,
    ensures
        tok_views(final(t)@) == padded(tok_views(old(t)@), n as nat),
{
    let ghost start = tok_views(t@);
    while t.len() < n
        invariant
            start.len() <= t.len() <= n,
            tok_views(t@) == padded(start, t.len() as nat),
        decreases n - t.len(),
    {
        push_token(t, VerTok::Num(0));
        assert(tok_views(t@) =~= padded(start, t.len() as nat));
    }
    assert(tok_views(t@) =~= padded(start, n as nat));
}

/// Order of two version strings as -1, 0 or 1.
pub fn version_compare(a: &str, b: &str) -> (r: i8)
    ensures
        r == version_order(a@, b@),
{
    let mut ta = version_tuple(a);
    let mut tb = version_tuple(b);
    let n = if ta.len() >= tb.len() { ta.len() } else { tb.len() };
    pad_tokens(&mut ta, n);
    pad_tokens(&mut tb, n);
    let ghost pa = tok_views(ta@);
    let ghost pb = tok_views(tb@);
    let mut i: usize = 0;
    assert(pa.skip(0) =~= pa);
    assert(pb.skip(0) =~= pb);
    while i < n
        invariant
            i <= n,
            ta.len() == n,
            tb.len() == n,
            pa == tok_views(ta@),
            pb == tok_views(tb@),
            version_order(a@, b@) == lex_order(pa.skip(i as int), pb.skip(i as int)),
        decreases n - i,
    {
        let c = tok_compare(&ta[i], &tb[i]);
        assert(pa.skip(i as int)[0] == ta@[i as int]@);
        assert(pb.skip(i as int)[0] == tb@[i as int]@);
        if c != 0 {
            return c;
        }
        assert(pa.skip(i as int).drop_first() =~= pa.skip(i + 1));
        assert(pb.skip(i as int).drop_first() =~= pb.skip(i + 1));
        i += 1;
    }
    0
}

/// The order -1, 0, 1 as an `Ordering`.
pub open spec fn to_ordering(c: int) -> Ordering {
    if c < 0 {
        Ordering::Less
    } else if c == 0 {
        Ordering::Equal
    } else {
        Ordering::Greater
    }
}

/// Compares two version strings: numeric runs by value (so `1.10` is after
/// `1.9`), letters after numbers, missing trailing tokens read as zero
/// (so `1.2` equals `1.2.0`).
pub fn version_cmp(a: &str, b: &str) -> (r: Ordering)
    ensures
        r == to_ordering(version_order(a@, b@)),
{
    let c = version_compare(a, b);
    if c < 0 {
        Ordering::Less
    } else if c == 0 {
        Ordering::Equal
    } else {
        Ordering::Greater
    }
}

// ---------------------------------------------------------------------------
// Matching one inventory row
// ---------------------------------------------------------------------------

/// The version field of the criteria's CPE, `*` when the criteria is no CPE.
pub open spec fn criteria_version(m: CpeMatch) -> Seq<char> {
    match cpe_fields(m.criteria@) {
        Some(p) => p[5],
        None => "*"@,
    }
}

pub open spec fn has_range(m: CpeMatch) -> bool {
    ||| m.version_start_including is Some
    ||| m.version_start_excluding is Some
    ||| m.version_end_including is Some
    ||| m.version_end_excluding is Some
}

/// Every bound that `m` sets admits `v`.
pub open spec fn within_bounds(v: Seq<char>, m: CpeMatch) -> bool {
    &&& (m.version_start_including matches Some(b) ==> version_order(v, b@) != -1)
    &&& (m.version_start_excluding matches Some(b) ==> version_order(v, b@) == 1)
    &&& (m.version_end_including matches Some(b) ==> version_order(v, b@) != 1)
    &&& (m.version_end_excluding matches Some(b) ==> version_order(v, b@) == -1)
}

/// Whether inventory version `v` lies in the versions that `m` names: any
/// version when `v` is `*` or `-`; within the bounds when `m` sets a bound or
/// its criteria's version is `*` or `-`; else equal to the criteria's version.
pub open spec fn in_range(v: Seq<char>, m: CpeMatch) -> bool {
    let cv = criteria_version(m);
    if v == "*"@ || v == "-"@ {
        true
    } else if has_range(m) || cv == "*"@ || cv == "-"@ {
        within_bounds(v, m)
    } else {
        version_order(v, cv) == 0
    }
}

/// A cpeMatch without bounds whose criteria names a version (neither `*`
/// nor `-`) admits a concrete inventory version exactly when the two compare
/// equal under the version order (so `3.0` is in `3.0.0`).
pub proof fn exact_version_law(v: Seq<char>, m: CpeMatch)
    requires
        m.version_start_including is None,
        m.version_start_excluding is None,
        m.version_end_including is None,
        m.version_end_excluding is None,
        cpe_fields(m.criteria@) is Some,
        cpe_fields(m.criteria@)->0[5] != "*"@,
        cpe_fields(m.criteria@)->0[5] != "-"@,
        v != "*"@,
        v != "-"@,
    ensures
        in_range(v, m) <==> version_order(v, cpe_fields(m.criteria@)->0[5]) == 0,
{
}

/// A cpeMatch with a bound, or whose criteria names any version (`*` or
/// `-`), admits a concrete inventory version exactly when it is at least a
/// `versionStartIncluding`, above a `versionStartExcluding`, at most a
/// `versionEndIncluding` and below a `versionEndExcluding`, for each bound
/// that is set.
pub proof fn range_version_law(v: Seq<char>, m: CpeMatch)
    requires
        v != "*"@,
        v != "-"@,
        has_range(m) || criteria_version(m) == "*"@ || criteria_version(m) == "-"@,
    ensures
        in_range(v, m) <==> {
            &&& (m.version_start_including matches Some(b) ==> version_order(v, b@) >= 0)
            &&& (m.version_start_excluding matches Some(b) ==> version_order(v, b@) > 0)
            &&& (m.version_end_including matches Some(b) ==> version_order(v, b@) <= 0)
            &&& (m.version_end_excluding matches Some(b) ==> version_order(v, b@) < 0)
        },
{
    if let Some(b) = m.version_start_including {
        version_order_antisymmetric(v, b@);
    }
    if let Some(b) = m.version_start_excluding {
        version_order_antisymmetric(v, b@);
    }
    if let Some(b) = m.version_end_including {
        version_order_antisymmetric(v, b@);
    }
    if let Some(b) = m.version_end_excluding {
        version_order_antisymmetric(v, b@);
    }
}

pub fn version_in_range(inv_ver: &str, m: &CpeMatch) -> (r: bool)
    ensures
        r == in_range(inv_ver@, *m),
{
    let crit_ver: String = match split_cpe(m.criteria.as_str()) {
        Some(p) => p[5].clone(),
        None => "*".to_owned(),
    };
    assert(crit_ver@ == criteria_version(*m));
    let ranged = m.version_start_including.is_some() || m.version_start_excluding.is_some()
        || m.version_end_including.is_some() || m.version_end_excluding.is_some();
    if str_equal(inv_ver, "*") || str_equal(inv_ver, "-") {
        return true;
    }
    if ranged || str_equal(crit_ver.as_str(), "*") || str_equal(crit_ver.as_str(), "-") {
        if let Some(v) = &m.version_start_including {
            if version_compare(inv_ver, v.as_str()) == -1 {
                return false;
            }
        }
        if let Some(v) = &m.version_start_excluding {
            if version_compare(inv_ver, v.as_str()) != 1 {
                return false;
            }
        }
        if let Some(v) = &m.version_end_including {
            if version_compare(inv_ver, v.as_str()) == 1 {
                return false;
            }
        }
        if let Some(v) = &m.version_end_excluding {
            if version_compare(inv_ver, v.as_str()) != -1 {
                return false;
            }
        }
        return true;
    }
    version_compare(inv_ver, crit_ver.as_str()) == 0
}

/// A CPE field admits a value when it is `*` or equal to it.
pub open spec fn field_admits(field: Seq<char>, value: Seq<char>) -> bool {
    field == "*"@ || field == value
}

/// Part, vendor and product of the criteria (lowercased) admit the row's.
pub open spec fn identity_matches(inv: InventoryRow, criteria: Seq<char>) -> bool {
    match cpe_fields(criteria) {
        None => false,
        Some(p) => {
            &&& field_admits(lower(p[2]), inv.part@)
            &&& field_admits(lower(p[3]), inv.vendor@)
            &&& field_admits(lower(p[4]), inv.product@)
        },
    }
}

/// A criteria matches a row's identity exactly when it is a CPE whose part,
/// vendor and product fields, lowercased, are each `*` or equal to the
/// row's part, vendor and product.
pub proof fn identity_match_law(inv: InventoryRow, criteria: Seq<char>)
    ensures
        identity_matches(inv, criteria) <==> (cpe_fields(criteria) is Some && ({
            let p = cpe_fields(criteria)->0;
            &&& (lower(p[2]) == "*"@ || lower(p[2]) == inv.part@)
            &&& (lower(p[3]) == "*"@ || lower(p[3]) == inv.vendor@)
            &&& (lower(p[4]) == "*"@ || lower(p[4]) == inv.product@)
        })),
{
}

fn admits(field: &String, value: &String) -> (r: bool)
    ensures
        r == field_admits(lower(field@), value@),
{
    let f = ascii_lowercase(field.as_str());
    str_equal(f.as_str(), "*") || f == *value
}

pub fn cpe_identity_match(inv: &InventoryRow, criteria: &str) -> (r: bool)
    ensures
        r == identity_matches(*inv, criteria@),
{
    let parts = match split_cpe(criteria) {
        Some(p) => p,
        None => {
            return false;
        },
    };
    admits(&parts[2], &inv.part) && admits(&parts[3], &inv.vendor) && admits(
        &parts[4],
        &inv.product,
    )
}

/// A vulnerable `cpeMatch` entry that names the row's product and version.
pub open spec fn match_hits(inv: InventoryRow, m: CpeMatch) -> bool {
    m.vulnerable && identity_matches(inv, m.criteria@) && in_range(inv.version@, m)
}

fn cpe_match_hits(inv: &InventoryRow, m: &CpeMatch) -> (r: bool)
    ensures
        r == match_hits(*inv, *m),
{
    m.vulnerable && cpe_identity_match(inv, m.criteria.as_str()) && version_in_range(
        inv.version.as_str(),
        m,
    )
}

// ---------------------------------------------------------------------------
// Configuration nodes
// ---------------------------------------------------------------------------

/// The node combines with AND (its operator, uppercased, is `AND`; a missing
/// operator means OR).
pub open spec fn is_and(op: Option<String>) -> bool {
    match op {
        Some(o) => upper(o@) == "AND"@,
        None => false,
    }
}

/// All of the first `k` children of `node` match.
pub open spec fn children_all(inv: InventoryRow, node: Node, k: int) -> bool
    decreases node, k,
{
    if k <= 0 || k > node.children@.len() {
        true
    } else {
        children_all(inv, node, k - 1) && node_eval(inv, node.children@[k - 1])
    }
}

/// One of the first `k` children of `node` matches.
pub open spec fn children_any(inv: InventoryRow, node: Node, k: int) -> bool
    decreases node, k,
{
    if k <= 0 || k > node.children@.len() {
        false
    } else {
        children_any(inv, node, k - 1) || node_eval(inv, node.children@[k - 1])
    }
}

/// Whether the row satisfies the node: a node with neither children nor
/// `cpeMatch` entries never matches; otherwise the results of its children
/// and of its entries are combined with AND or OR, then negated when
/// `negate` is `true`.
pub open spec fn node_eval(inv: InventoryRow, node: Node) -> bool
    decreases node, node.children@.len() + 1,
{
    let n = node.children@.len() as int;
    let ms = node.cpe_match@;
    if n + ms.len() == 0 {
        false
    } else {
        let r = if is_and(node.operator) {
            children_all(inv, node, n) && forall|j: int|
                0 <= j < ms.len() ==> #[trigger] match_hits(inv, ms[j])
        } else {
            children_any(inv, node, n) || exists|j: int|
                0 <= j < ms.len() && #[trigger] match_hits(inv, ms[j])
        };
        if node.negate == Some(true) {
            !r
        } else {
            r
        }
    }
}

/// Negating a node flips its result, unless the node is empty (an empty
/// node never matches).
pub proof fn negation_flips(inv: InventoryRow, node: Node)
    requires
        node.children@.len() + node.cpe_match@.len() > 0,
    ensures
        node_eval(inv, Node { negate: Some(true), ..node }) == !node_eval(
            inv,
            Node { negate: None, ..node },
        ),
{
    let n1 = Node { negate: Some(true), ..node };
    let n2 = Node { negate: None, ..node };
    lemma_children_same(inv, n1, n2, node.children@.len() as int);
}

proof fn lemma_children_same(inv: InventoryRow, a: Node, b: Node, k: int)
    requires
        a.children == b.children,
        0 <= k <= a.children@.len(),
    ensures
        children_all(inv, a, k) == children_all(inv, b, k),
        children_any(inv, a, k) == children_any(inv, b, k),
    decreases k,
{
    if k > 0 {
        lemma_children_same(inv, a, b, k - 1);
    }
}

/// A wildcard or unspecified inventory version lies in every range.
pub proof fn any_version_in_range(m: CpeMatch)
    ensures
        in_range("*"@, m),
        in_range("-"@, m),
{
}

pub fn node_matches(inv: &InventoryRow, node: &Node) -> (r: bool)
    ensures
        r == node_eval(*inv, *node),
    decreases node,
{
    let n = node.children.len();
    let mut all_c = true;
    let mut any_c = false;
    let mut i: usize = 0;
    while i < n
        invariant
            i <= n == node.children@.len(),
            all_c == children_all(*inv, *node, i as int),
            any_c == children_any(*inv, *node, i as int),
        decreases n - i,
    {
        assert(decreases_to!(node => node.children@[i as int]));
        let b = node_matches(inv, &node.children[i]);
        all_c = all_c && b;
        any_c = any_c || b;
        i += 1;
    }
    let m = node.cpe_match.len();
    let mut all_m = true;
    let mut any_m = false;
    let mut j: usize = 0;
    while j < m
        invariant
            j <= m == node.cpe_match@.len(),
            all_m == (forall|k: int| 0 <= k < j ==> #[trigger] match_hits(*inv, node.cpe_match@[k])),
            any_m == (exists|k: int| 0 <= k < j && #[trigger] match_hits(*inv, node.cpe_match@[k])),
        decreases m - j,
    {
        let b = cpe_match_hits(inv, &node.cpe_match[j]);
        all_m = all_m && b;
        any_m = any_m || b;
        j += 1;
    }
    if n == 0 && m == 0 {
        return false;
    }
    let and_op = match &node.operator {
        Some(o) => {
            let u = ascii_uppercase(o.as_str());
            str_equal(u.as_str(), "AND")
        },
        None => false,
    };
    let result = if and_op {
        all_c && all_m
    } else {
        any_c || any_m
    };
    let negated = match node.negate {
        Some(x) => x,
        None => false,
    };
    if negated {
        !result
    } else {
        result
    }
}

// ---------------------------------------------------------------------------
// Matching a row against a CVE's configurations
// ---------------------------------------------------------------------------

/// Criteria of the first `cpeMatch` entry that hits the row, or
/// `(configuration match)` when none does.
pub open spec fn entry_criteria(inv: InventoryRow, ms: Seq<CpeMatch>) -> Seq<char>
    decreases ms.len(),
{
    if ms.len() == 0 {
        "(configuration match)"@
    } else if match_hits(inv, ms[0]) {
        ms[0].criteria@
    } else {
        entry_criteria(inv, ms.drop_first())
    }
}

/// For the first node that the row satisfies, the criteria that reports it.
pub open spec fn nodes_criteria(inv: InventoryRow, nodes: Seq<Node>) -> Option<Seq<char>>
    decreases nodes.len(),
{
    if nodes.len() == 0 {
        None
    } else if node_eval(inv, nodes[0]) {
        Some(entry_criteria(inv, nodes[0].cpe_match@))
    } else {
        nodes_criteria(inv, nodes.drop_first())
    }
}

/// The criteria that reports the first matching node, configurations and
/// their nodes taken in order; `None` when no node matches.
pub open spec fn first_criteria(inv: InventoryRow, configs: Seq<Configuration>) -> Option<
    Seq<char>,
>
    decreases configs.len(),
{
    if configs.len() == 0 {
        None
    } else {
        match nodes_criteria(inv, configs[0].nodes@) {
            Some(c) => Some(c),
            None => first_criteria(inv, configs.drop_first()),
        }
    }
}

/// The criteria that reports a matching node: that of its first entry that
/// hits the row, or `(configuration match)` when none does.
pub proof fn entry_criteria_is_first_hit(inv: InventoryRow, ms: Seq<CpeMatch>)
    ensures
        (exists|k: int|
            0 <= k < ms.len() && #[trigger] match_hits(inv, ms[k]) && (forall|j: int|
                0 <= j < k ==> !match_hits(inv, #[trigger] ms[j])) && entry_criteria(inv, ms)
                == ms[k].criteria@) || ((forall|k: int| 0 <= k < ms.len() ==> !match_hits(
            inv,
            #[trigger] ms[k],
        )) && entry_criteria(inv, ms) == "(configuration match)"@),
    decreases ms.len(),
{
    if ms.len() > 0 {
        entry_criteria_is_first_hit(inv, ms.drop_first());
        let rest = ms.drop_first();
        if match_hits(inv, ms[0]) {
            assert(match_hits(inv, ms[0]));
        } else if exists|k: int|
            0 <= k < rest.len() && #[trigger] match_hits(inv, rest[k]) && (forall|j: int|
                0 <= j < k ==> !match_hits(inv, #[trigger] rest[j])) && entry_criteria(inv, rest)
                == rest[k].criteria@ {
            let k = choose|k: int|
                0 <= k < rest.len() && #[trigger] match_hits(inv, rest[k]) && (forall|j: int|
                    0 <= j < k ==> !match_hits(inv, #[trigger] rest[j])) && entry_criteria(
                    inv,
                    rest,
                ) == rest[k].criteria@;
            assert(ms[k + 1] == rest[k]);
            assert forall|j: int| 0 <= j < k + 1 implies !match_hits(inv, #[trigger] ms[j]) by {
                if j > 0 {
                    assert(ms[j] == rest[j - 1]);
                }
            }
            assert(match_hits(inv, ms[k + 1]));
        } else {
            assert forall|k: int| 0 <= k < ms.len() implies !match_hits(inv, #[trigger] ms[k]) by {
                if k > 0 {
                    assert(ms[k] == rest[k - 1]);
                }
            }
        }
    }
}

/// Node `ni` of configuration `ci` exists and the row satisfies it.
pub open spec fn node_matches_at(
    inv: InventoryRow,
    configs: Seq<Configuration>,
    ci: int,
    ni: int,
) -> bool {
    &&& 0 <= ci < configs.len()
    &&& 0 <= ni < configs[ci].nodes@.len()
    &&& node_eval(inv, configs[ci].nodes@[ni])
}

proof fn lemma_nodes_criteria(inv: InventoryRow, nodes: Seq<Node>)
    ensures
        nodes_criteria(inv, nodes) is Some <==> exists|n: int|
            0 <= n < nodes.len() && #[trigger] node_eval(inv, nodes[n]),
        nodes_criteria(inv, nodes) matches Some(c) ==> exists|n: int|
            0 <= n < nodes.len() && #[trigger] node_eval(inv, nodes[n]) && (forall|m: int|
                0 <= m < n ==> !node_eval(inv, #[trigger] nodes[m])) && c == entry_criteria(
                inv,
                nodes[n].cpe_match@,
            ),
    decreases nodes.len(),
{
    if nodes.len() > 0 {
        let rest = nodes.drop_first();
        lemma_nodes_criteria(inv, rest);
        if node_eval(inv, nodes[0]) {
            assert(node_eval(inv, nodes[0]));
        } else {
            if exists|n: int| 0 <= n < rest.len() && #[trigger] node_eval(inv, rest[n]) {
                let n = choose|n: int| 0 <= n < rest.len() && #[trigger] node_eval(inv, rest[n]);
                assert(nodes[n + 1] == rest[n]);
            }
            if exists|n: int| 0 <= n < nodes.len() && #[trigger] node_eval(inv, nodes[n]) {
                let n = choose|n: int| 0 <= n < nodes.len() && #[trigger] node_eval(inv, nodes[n]);
                assert(rest[n - 1] == nodes[n]);
            }
            if let Some(c) = nodes_criteria(inv, nodes) {
                let n = choose|n: int|
                    0 <= n < rest.len() && #[trigger] node_eval(inv, rest[n]) && (forall|m: int|
                        0 <= m < n ==> !node_eval(inv, #[trigger] rest[m])) && c == entry_criteria(
                        inv,
                        rest[n].cpe_match@,
                    );
                assert(nodes[n + 1] == rest[n]);
                assert forall|m: int| 0 <= m < n + 1 implies !node_eval(inv, #[trigger] nodes[m]) by {
                    if m > 0 {
                        assert(nodes[m] == rest[m - 1]);
                    }
                }
                assert(node_eval(inv, nodes[n + 1]));
            }
        }
    }
}

/// A CVE's configurations report a row exactly when some node of them is
/// satisfied; the report is then the criteria of the first such node,
/// configurations and nodes taken in order.
pub proof fn first_criteria_is_first_match(inv: InventoryRow, configs: Seq<Configuration>)
    ensures
        first_criteria(inv, configs) is Some <==> exists|ci: int, ni: int|
            #[trigger] node_matches_at(inv, configs, ci, ni),
        first_criteria(inv, configs) matches Some(c) ==> exists|ci: int, ni: int|
            #[trigger] node_matches_at(inv, configs, ci, ni) && (forall|cj: int, nj: int|
                #[trigger] node_matches_at(inv, configs, cj, nj) ==> ci < cj || (ci == cj && ni
                    <= nj)) && c == entry_criteria(inv, configs[ci].nodes@[ni].cpe_match@),
    decreases configs.len(),
{
    if configs.len() > 0 {
        let rest = configs.drop_first();
        first_criteria_is_first_match(inv, rest);
        let nodes = configs[0].nodes@;
        lemma_nodes_criteria(inv, nodes);
        match nodes_criteria(inv, nodes) {
            Some(c) => {
                let n = choose|n: int|
                    0 <= n < nodes.len() && #[trigger] node_eval(inv, nodes[n]) && (forall|m: int|
                        0 <= m < n ==> !node_eval(inv, #[trigger] nodes[m])) && c == entry_criteria(
                        inv,
                        nodes[n].cpe_match@,
                    );
                assert(node_matches_at(inv, configs, 0, n));
                assert forall|cj: int, nj: int| #[trigger]
                    node_matches_at(inv, configs, cj, nj) implies 0 < cj || (0 == cj && n <= nj) by {
                    if cj == 0 && nj < n {
                        assert(!node_eval(inv, nodes[nj]));
                    }
                }
            },
            None => {
                assert forall|cj: int, nj: int| #[trigger]
                    node_matches_at(inv, configs, cj, nj) implies cj > 0 && node_matches_at(
                    inv,
                    rest,
                    cj - 1,
                    nj,
                ) by {
                    if cj == 0 {
                        assert(node_eval(inv, nodes[nj]));
                    }
                    assert(configs[cj] == rest[cj - 1]);
                }
                if exists|ci: int, ni: int| #[trigger] node_matches_at(inv, rest, ci, ni) {
                    let (ci, ni) = choose|ci: int, ni: int| #[trigger]
                        node_matches_at(inv, rest, ci, ni);
                    assert(configs[ci + 1] == rest[ci]);
                    assert(node_matches_at(inv, configs, ci + 1, ni));
                }
                if let Some(c) = first_criteria(inv, configs) {
                    let (ci, ni) = choose|ci: int, ni: int|
                        #[trigger] node_matches_at(inv, rest, ci, ni) && (forall|cj: int, nj: int|
                            #[trigger] node_matches_at(inv, rest, cj, nj) ==> ci < cj || (ci == cj
                                && ni <= nj)) && c == entry_criteria(
                            inv,
                            rest[ci].nodes@[ni].cpe_match@,
                        );
                    assert(configs[ci + 1] == rest[ci]);
                    assert(node_matches_at(inv, configs, ci + 1, ni));
                    assert forall|cj: int, nj: int| #[trigger]
                        node_matches_at(inv, configs, cj, nj) implies ci + 1 < cj || (ci + 1 == cj
                        && ni <= nj) by {
                        assert(node_matches_at(inv, rest, cj - 1, nj));
                    }
                }
            },
        }
    }
}

fn node_report(inv: &InventoryRow, node: &Node) -> (res: String)
    ensures
        res@ == entry_criteria(*inv, node.cpe_match@),
{
    let ms = &node.cpe_match;
    let mut j: usize = 0;
    assert(ms@.skip(0) =~= ms@);
    while j < ms.len()
        invariant
            j <= ms.len(),
            ms@ == node.cpe_match@,
            entry_criteria(*inv, ms@) == entry_criteria(*inv, ms@.skip(j as int)),
        decreases ms.len() - j,
    {
        assert(ms@.skip(j as int)[0] == ms@[j as int]);
        if cpe_match_hits(inv, &ms[j]) {
            let c = ms[j].criteria.clone();
            assert(match_hits(*inv, ms@.skip(j as int)[0]));
            assert(entry_criteria(*inv, ms@.skip(j as int)) == ms@[j as int].criteria@);
            return c;
        }
        assert(ms@.skip(j as int).drop_first() =~= ms@.skip(j + 1));
        j += 1;
    }
    assert(ms@.skip(j as int).len() == 0);
    "(configuration match)".to_owned()
}

pub fn first_matching_criteria(inv: &InventoryRow, configs: &[Configuration]) -> (res: Option<
    String,
>)
    ensures
        match res {
            Some(c) => first_criteria(*inv, configs@) == Some(c@),
            None => first_criteria(*inv, configs@) is None,
        },
{
    let mut ci: usize = 0;
    assert(configs@.skip(0) =~= configs@);
    while ci < configs.len()
        invariant
            ci <= configs@.len(),
            first_criteria(*inv, configs@) == first_criteria(*inv, configs@.skip(ci as int)),
        decreases configs@.len() - ci,
    {
        let nodes = &configs[ci].nodes;
        assert(configs@.skip(ci as int)[0] == configs@[ci as int]);
        let mut ni: usize = 0;
        assert(nodes@.skip(0) =~= nodes@);
        while ni < nodes.len()
            invariant
                ci < configs@.len(),
                nodes == configs@[ci as int].nodes,
                first_criteria(*inv, configs@) == first_criteria(*inv, configs@.skip(ci as int)),
                ni <= nodes@.len(),
                nodes_criteria(*inv, nodes@) == nodes_criteria(*inv, nodes@.skip(ni as int)),
            decreases nodes@.len() - ni,
        {
            assert(nodes@.skip(ni as int)[0] == nodes@[ni as int]);
            if node_matches(inv, &nodes[ni]) {
                let r = node_report(inv, &nodes[ni]);
                assert(nodes_criteria(*inv, nodes@) == Some(r@));
                assert(first_criteria(*inv, configs@.skip(ci as int)) == Some(r@));
                return Some(r);
            }
            assert(nodes@.skip(ni as int).drop_first() =~= nodes@.skip(ni + 1));
            ni += 1;
        }
        assert(configs@.skip(ci as int).drop_first() =~= configs@.skip(ci + 1));
        ci += 1;
    }
    None
}

// ---------------------------------------------------------------------------
// Matching the whole inventory
// ---------------------------------------------------------------------------

/// The finding for `row` under `cve`, reported by criteria `crit`.
pub open spec fn hit_of(cve: StoredCve, row: InventoryRow, crit: Seq<char>) -> HitView {
    HitView {
        cve_id: cve.id@,
        severity: upper(cve.severity@),
        score: cve.score,
        inventory: row,
        matched_criteria: crit,
        published: cve.published@,
        description: cve.description@,
    }
}

/// `acc` already holds a finding for this CVE id and inventory CPE.
pub open spec fn already_hit(acc: Seq<HitView>, id: Seq<char>, cpe: Seq<char>) -> bool {
    exists|i: int| 0 <= i < acc.len() && #[trigger] acc[i].cve_id == id && acc[i].inventory.cpe@ == cpe
}

/// `acc` followed by the findings of `cve` for `rows`, in row order, each
/// (CVE id, inventory CPE) pair once.
pub open spec fn add_rows(acc: Seq<HitView>, rows: Seq<InventoryRow>, cve: StoredCve) -> Seq<
    HitView,
>
    decreases rows.len(),
{
    if rows.len() == 0 {
        acc
    } else {
        let a = add_rows(acc, rows.drop_last(), cve);
        let r = rows.last();
        match first_criteria(r, cve.configurations@) {
            None => a,
            Some(c) => if already_hit(a, cve.id@, r.cpe@) {
                a
            } else {
                a.push(hit_of(cve, r, c))
            },
        }
    }
}

/// The findings before sorting: CVE by CVE (Low, Medium and other
/// severities skipped), row by row.
pub open spec fn collect_hits(rows: Seq<InventoryRow>, cves: Seq<StoredCve>) -> Seq<HitView>
    decreases cves.len(),
{
    if cves.len() == 0 {
        Seq::empty()
    } else {
        let acc = collect_hits(rows, cves.drop_last());
        let cve = cves.last();
        if high_or_critical(cve.severity@) {
            add_rows(acc, rows, cve)
        } else {
            acc
        }
    }
}

/// Report order: higher severity first, then CVE id, then inventory CPE.
pub open spec fn hit_before(a: HitView, b: HitView) -> bool {
    let ra = rank_of(a.severity);
    let rb = rank_of(b.severity);
    ||| ra > rb
    ||| ra == rb && chars_lt(a.cve_id, b.cve_id)
    ||| ra == rb && a.cve_id == b.cve_id && chars_lt(a.inventory.cpe@, b.inventory.cpe@)
}

/// No finding comes after one that should follow it.
pub open spec fn in_report_order(s: Seq<HitView>) -> bool {
    forall|i: int, j: int| 0 <= i < j < s.len() ==> !hit_before(#[trigger] s[j], #[trigger] s[i])
}

/// Findings in report order list Critical before High; within a severity
/// they go by CVE id, and within a CVE by inventory CPE.
pub proof fn report_order_law(s: Seq<HitView>)
    requires
        in_report_order(s),
        all_high_or_critical(s),
    ensures
        forall|i: int, j: int|
            0 <= i < j < s.len() ==> {
                &&& (upper((#[trigger] s[j]).severity) == "CRITICAL"@ ==> upper(
                    (#[trigger] s[i]).severity,
                ) == "CRITICAL"@)
                &&& (upper(s[i].severity) == upper(s[j].severity) ==> !chars_lt(
                    s[j].cve_id,
                    s[i].cve_id,
                ))
                &&& (upper(s[i].severity) == upper(s[j].severity) && s[i].cve_id == s[j].cve_id
                    ==> !chars_lt(s[j].inventory.cpe@, s[i].inventory.cpe@))
            },
{
    reveal_strlit("CRITICAL");
    reveal_strlit("HIGH");
    assert("CRITICAL"@.len() != "HIGH"@.len());
    assert forall|i: int, j: int| 0 <= i < j < s.len() implies {
        &&& (upper((#[trigger] s[j]).severity) == "CRITICAL"@ ==> upper(
            (#[trigger] s[i]).severity,
        ) == "CRITICAL"@)
        &&& (upper(s[i].severity) == upper(s[j].severity) ==> !chars_lt(s[j].cve_id, s[i].cve_id))
        &&& (upper(s[i].severity) == upper(s[j].severity) && s[i].cve_id == s[j].cve_id
            ==> !chars_lt(s[j].inventory.cpe@, s[i].inventory.cpe@))
    } by {
        assert(!hit_before(s[j], s[i]));
        assert(high_or_critical(s[i].severity));
        assert(high_or_critical(s[j].severity));
    }
}

pub proof fn lemma_hit_before_transitive(a: HitView, b: HitView, c: HitView)
    requires
        hit_before(a, b),
        hit_before(b, c),
    ensures
        hit_before(a, c),
{
    lemma_chars_lt_irreflexive(a.cve_id);
    lemma_chars_lt_irreflexive(b.cve_id);
    lemma_chars_lt_irreflexive(c.cve_id);
    if rank_of(a.severity) == rank_of(b.severity) && rank_of(b.severity) == rank_of(c.severity) {
        if a.cve_id == b.cve_id && b.cve_id == c.cve_id {
            lemma_chars_lt_transitive(a.inventory.cpe@, b.inventory.cpe@, c.inventory.cpe@);
        } else if a.cve_id == b.cve_id {
        } else if b.cve_id == c.cve_id {
        } else {
            lemma_chars_lt_transitive(a.cve_id, b.cve_id, c.cve_id);
        }
    }
}

pub proof fn lemma_hit_before_asymmetric(a: HitView, b: HitView)
    ensures
        !(hit_before(a, b) && hit_before(b, a)),
{
    lemma_chars_lt_asymmetric(a.cve_id, b.cve_id);
    lemma_chars_lt_asymmetric(a.inventory.cpe@, b.inventory.cpe@);
    lemma_chars_lt_irreflexive(a.cve_id);
}

fn hit_goes_before(a: &Hit, b: &Hit) -> (r: bool)
    ensures
        r == hit_before(a@, b@),
{
    let ra = severity_rank(a.severity.as_str());
    let rb = severity_rank(b.severity.as_str());
    if ra != rb {
        return ra > rb;
    }
    if str_less(a.cve_id.as_str(), b.cve_id.as_str()) {
        return true;
    }
    a.cve_id == b.cve_id && str_less(a.inventory.cpe.as_str(), b.inventory.cpe.as_str())
}

fn has_hit(hits: &Vec<Hit>, id: &String, cpe: &String) -> (r: bool)
    ensures
        r == already_hit(hit_views(hits@), id@, cpe@),
{
    let mut k: usize = 0;
    while k < hits.len()
        invariant
            k <= hits.len(),
            forall|m: int|
                0 <= m < k ==> !(#[trigger] hits@[m].cve_id@ == id@ && hits@[m].inventory.cpe@
                    == cpe@),
        decreases hits.len() - k,
    {
        if hits[k].cve_id == *id && hits[k].inventory.cpe == *cpe {
            assert(hit_views(hits@)[k as int].cve_id == id@);
            return true;
        }
        k += 1;
    }
    assert forall|i: int| 0 <= i < hit_views(hits@).len() implies !(#[trigger] hit_views(
        hits@,
    )[i].cve_id == id@ && hit_views(hits@)[i].inventory.cpe@ == cpe@) by {
        assert(hit_views(hits@)[i] == hits@[i]@);
    }
    false
}

fn collect(inventory: &[InventoryRow], cves: &[StoredCve]) -> (hits: Vec<Hit>)
    ensures
        hit_views(hits@) == collect_hits(inventory@, cves@),
{
    let mut hits: Vec<Hit> = Vec::new();
    let mut ci: usize = 0;
    while ci < cves.len()
        invariant
            ci <= cves@.len(),
            hit_views(hits@) == collect_hits(inventory@, cves@.take(ci as int)),
        decreases cves@.len() - ci,
    {
        let cve = &cves[ci];
        assert(cves@.take(ci + 1).drop_last() =~= cves@.take(ci as int));
        if is_high_or_critical(cve.severity.as_str()) {
            let ghost base = hit_views(hits@);
            let mut ri: usize = 0;
            assert(inventory@.take(0) =~= Seq::<InventoryRow>::empty());
            while ri < inventory.len()
                invariant
                    ri <= inventory@.len(),
                    ci < cves@.len(),
                    *cve == cves@[ci as int],
                    hit_views(hits@) == add_rows(base, inventory@.take(ri as int), *cve),
                decreases inventory@.len() - ri,
            {
                let row = &inventory[ri];
                assert(inventory@.take(ri + 1).drop_last() =~= inventory@.take(ri as int));
                if let Some(crit) = first_matching_criteria(row, cve.configurations.as_slice()) {
                    if !has_hit(&hits, &cve.id, &row.cpe) {
                        let h = Hit {
                            cve_id: cve.id.clone(),
                            severity: ascii_uppercase(cve.severity.as_str()),
                            score: cve.score,
                            inventory: row.clone(),
                            matched_criteria: crit,
                            published: cve.published.clone(),
                            description: cve.description.clone(),
                        };
                        let ghost before = hit_views(hits@);
                        hits.push(h);
                        assert(hit_views(hits@) =~= before.push(h@));
                    }
                }
                ri += 1;
            }
            assert(inventory@.take(inventory@.len() as int) =~= inventory@);
        }
        ci += 1;
    }
    assert(cves@.take(cves@.len() as int) =~= cves@);
    hits
}

/// No two findings share a (CVE id, inventory CPE) pair.
pub open spec fn unique_keys(s: Seq<HitView>) -> bool {
    forall|i: int, j: int|
        0 <= i < j < s.len() ==> !(#[trigger] s[i].cve_id == #[trigger] s[j].cve_id
            && s[i].inventory.cpe@ == s[j].inventory.cpe@)
}

/// Every finding is High or Critical.
pub open spec fn all_high_or_critical(s: Seq<HitView>) -> bool {
    forall|i: int| 0 <= i < s.len() ==> high_or_critical(#[trigger] s[i].severity)
}

proof fn lemma_add_rows_facts(acc: Seq<HitView>, rows: Seq<InventoryRow>, cve: StoredCve)
    requires
        unique_keys(acc),
        all_high_or_critical(acc),
        high_or_critical(cve.severity@),
    ensures
        unique_keys(add_rows(acc, rows, cve)),
        all_high_or_critical(add_rows(acc, rows, cve)),
    decreases rows.len(),
{
    if rows.len() > 0 {
        lemma_add_rows_facts(acc, rows.drop_last(), cve);
        let a = add_rows(acc, rows.drop_last(), cve);
        let r = rows.last();
        if let Some(c) = first_criteria(r, cve.configurations@) {
            if !already_hit(a, cve.id@, r.cpe@) {
                let h = hit_of(cve, r, c);
                let n = a.push(h);
                lemma_upper_idempotent(cve.severity@);
                assert forall|i: int, j: int| 0 <= i < j < n.len() implies !(#[trigger] n[i].cve_id
                    == #[trigger] n[j].cve_id && n[i].inventory.cpe@ == n[j].inventory.cpe@) by {
                    if j == a.len() {
                        assert(n[i] == a[i]);
                    } else {
                        assert(n[i] == a[i] && n[j] == a[j]);
                    }
                }
                assert forall|i: int| 0 <= i < n.len() implies high_or_critical(
                    #[trigger] n[i].severity,
                ) by {
                    if i < a.len() {
                        assert(n[i] == a[i]);
                    }
                }
            }
        }
    }
}

/// The unsorted findings are High or Critical and unique per (CVE id,
/// inventory CPE).
pub proof fn lemma_collect_facts(rows: Seq<InventoryRow>, cves: Seq<StoredCve>)
    ensures
        unique_keys(collect_hits(rows, cves)),
        all_high_or_critical(collect_hits(rows, cves)),
    decreases cves.len(),
{
    if cves.len() > 0 {
        lemma_collect_facts(rows, cves.drop_last());
        if high_or_critical(cves.last().severity@) {
            lemma_add_rows_facts(collect_hits(rows, cves.drop_last()), rows, cves.last());
        }
    }
}

proof fn lemma_same_elements_facts(res: Seq<HitView>, col: Seq<HitView>)
    requires
        res.to_multiset() == col.to_multiset(),
        unique_keys(col),
        all_high_or_critical(col),
    ensures
        unique_keys(res),
        all_high_or_critical(res),
{
    broadcast use vstd::seq_lib::group_to_multiset_ensures;

    assert(col.no_duplicates()) by {
        assert forall|i: int, j: int| 0 <= i < col.len() && 0 <= j < col.len() && i != j implies col[i]
            != col[j] by {
            if i < j {
                assert(!(col[i].cve_id == col[j].cve_id && col[i].inventory.cpe@ == col[j].inventory.cpe@));
            } else {
                assert(!(col[j].cve_id == col[i].cve_id && col[j].inventory.cpe@ == col[i].inventory.cpe@));
            }
        }
    }
    col.lemma_multiset_has_no_duplicates();
    res.lemma_multiset_has_no_duplicates_conv();
    assert forall|i: int| 0 <= i < res.len() implies high_or_critical(#[trigger] res[i].severity) by {
        assert(res.contains(res[i]));
        assert(res.to_multiset().count(res[i]) > 0);
        assert(col.to_multiset().count(res[i]) > 0);
        assert(col.contains(res[i]));
        let p = choose|p: int| 0 <= p < col.len() && col[p] == res[i];
        assert(high_or_critical(col[p].severity));
    }
    assert forall|i: int, j: int| 0 <= i < j < res.len() implies !(#[trigger] res[i].cve_id
        == #[trigger] res[j].cve_id && res[i].inventory.cpe@ == res[j].inventory.cpe@) by {
        assert(res.contains(res[i]));
        assert(res.to_multiset().count(res[i]) > 0);
        assert(col.to_multiset().count(res[i]) > 0);
        assert(col.contains(res[i]));
        assert(res.contains(res[j]));
        assert(res.to_multiset().count(res[j]) > 0);
        assert(col.to_multiset().count(res[j]) > 0);
        assert(col.contains(res[j]));
        let p = choose|p: int| 0 <= p < col.len() && col[p] == res[i];
        let q = choose|q: int| 0 <= q < col.len() && col[q] == res[j];
        assert(res[i] != res[j]);
        assert(p != q);
        if p < q {
            assert(!(col[p].cve_id == col[q].cve_id && col[p].inventory.cpe@ == col[q].inventory.cpe@));
        } else {
            assert(!(col[q].cve_id == col[p].cve_id && col[q].inventory.cpe@ == col[p].inventory.cpe@));
        }
    }
}

/// `h` is the finding of some High or Critical CVE of `cves` for some row of
/// `rows` whose configurations report that row with `h`'s criteria: it
/// carries that CVE's id, severity (in upper case), score, published date
/// and description, and that row.
pub open spec fn hit_from(h: HitView, rows: Seq<InventoryRow>, cves: Seq<StoredCve>) -> bool {
    exists|ci: int, ri: int|
        #![trigger cves[ci], rows[ri]]
        0 <= ci < cves.len() && 0 <= ri < rows.len() && high_or_critical(cves[ci].severity@)
            && first_criteria(rows[ri], cves[ci].configurations@) == Some(h.matched_criteria)
            && h.cve_id == cves[ci].id@ && h.severity == upper(cves[ci].severity@) && h.score
            == cves[ci].score && h.published == cves[ci].published@ && h.description
            == cves[ci].description@ && h.inventory == rows[ri]
}

/// Row `ri` is reported by CVE `ci`: the CVE is High or Critical and some
/// node of its configurations is satisfied by the row.
pub open spec fn reported(rows: Seq<InventoryRow>, cves: Seq<StoredCve>, ci: int, ri: int) -> bool {
    &&& 0 <= ci < cves.len()
    &&& 0 <= ri < rows.len()
    &&& high_or_critical(cves[ci].severity@)
    &&& first_criteria(rows[ri], cves[ci].configurations@) is Some
}

/// `h` is the finding of `cve` for some row of `rows` that its
/// configurations report with `h`'s criteria.
spec fn from_rows(h: HitView, rows: Seq<InventoryRow>, cve: StoredCve) -> bool {
    exists|ri: int|
        0 <= ri < rows.len() && first_criteria(#[trigger] rows[ri], cve.configurations@) == Some(
            h.matched_criteria,
        ) && h == hit_of(cve, rows[ri], h.matched_criteria)
}

proof fn lemma_add_rows_law(acc: Seq<HitView>, rows: Seq<InventoryRow>, cve: StoredCve)
    ensures
        add_rows(acc, rows, cve).len() >= acc.len(),
        forall|i: int| 0 <= i < acc.len() ==> #[trigger] add_rows(acc, rows, cve)[i] == acc[i],
        forall|i: int|
            acc.len() <= i < add_rows(acc, rows, cve).len() ==> from_rows(
                #[trigger] add_rows(acc, rows, cve)[i],
                rows,
                cve,
            ),
        forall|ri: int|
            0 <= ri < rows.len() && (first_criteria(#[trigger] rows[ri], cve.configurations@) is Some)
                ==> already_hit(add_rows(acc, rows, cve), cve.id@, rows[ri].cpe@),
    decreases rows.len(),
{
    if rows.len() > 0 {
        let pre = rows.drop_last();
        lemma_add_rows_law(acc, pre, cve);
        let a = add_rows(acc, pre, cve);
        let r = rows.last();
        let res = add_rows(acc, rows, cve);
        assert forall|i: int| acc.len() <= i < a.len() implies from_rows(#[trigger] a[i], rows, cve) by {
            assert(from_rows(a[i], pre, cve));
            let ri = choose|ri: int|
                0 <= ri < pre.len() && first_criteria(#[trigger] pre[ri], cve.configurations@)
                    == Some(a[i].matched_criteria) && a[i] == hit_of(
                    cve,
                    pre[ri],
                    a[i].matched_criteria,
                );
            assert(rows[ri] == pre[ri]);
        }
        assert forall|ri: int|
            0 <= ri < pre.len() && (first_criteria(#[trigger] rows[ri], cve.configurations@) is Some)
                implies already_hit(a, cve.id@, rows[ri].cpe@) by {
            assert(rows[ri] == pre[ri]);
        }
        match first_criteria(r, cve.configurations@) {
            None => {},
            Some(c) => {
                if !already_hit(a, cve.id@, r.cpe@) {
                    let h = hit_of(cve, r, c);
                    assert(res == a.push(h));
                    assert(res[a.len() as int] == h);
                    assert(rows[rows.len() - 1] == r);
                    assert(res[a.len() as int].cve_id == cve.id@);
                    assert(already_hit(res, cve.id@, r.cpe@));
                    assert forall|ri: int|
                        0 <= ri < pre.len() && (first_criteria(
                            #[trigger] rows[ri],
                            cve.configurations@,
                        ) is Some) implies already_hit(res, cve.id@, rows[ri].cpe@) by {
                        assert(already_hit(a, cve.id@, rows[ri].cpe@));
                        let k = choose|k: int|
                            0 <= k < a.len() && #[trigger] a[k].cve_id == cve.id@
                                && a[k].inventory.cpe@ == rows[ri].cpe@;
                        assert(res[k] == a[k]);
                    }
                    assert forall|i: int| acc.len() <= i < res.len() implies from_rows(
                        #[trigger] res[i],
                        rows,
                        cve,
                    ) by {
                        if i < a.len() {
                            assert(res[i] == a[i]);
                        } else {
                            assert(res[i] == h);
                            assert(first_criteria(rows[rows.len() - 1], cve.configurations@)
                                == Some(res[i].matched_criteria));
                        }
                    }
                }
            },
        }
    }
}

/// Every finding comes from a High or Critical CVE whose configurations
/// report an inventory row with that criteria, and every (CVE, row) pair so
/// reported has a finding with that CVE id and inventory CPE.
pub proof fn findings_sound_and_complete(rows: Seq<InventoryRow>, cves: Seq<StoredCve>)
    ensures
        forall|i: int|
            0 <= i < collect_hits(rows, cves).len() ==> hit_from(
                #[trigger] collect_hits(rows, cves)[i],
                rows,
                cves,
            ),
        forall|ci: int, ri: int|
            #[trigger] reported(rows, cves, ci, ri) ==> already_hit(
                collect_hits(rows, cves),
                cves[ci].id@,
                rows[ri].cpe@,
            ),
    decreases cves.len(),
{
    if cves.len() > 0 {
        let pre = cves.drop_last();
        findings_sound_and_complete(rows, pre);
        let acc = collect_hits(rows, pre);
        let cve = cves.last();
        let res = collect_hits(rows, cves);
        let last = cves.len() - 1;
        assert(cves[last] == cve);
        assert forall|i: int| 0 <= i < acc.len() implies hit_from(#[trigger] acc[i], rows, cves) by {
            let (ci, ri) = choose|ci: int, ri: int|
                #![trigger pre[ci], rows[ri]]
                0 <= ci < pre.len() && 0 <= ri < rows.len() && high_or_critical(pre[ci].severity@)
                    && first_criteria(rows[ri], pre[ci].configurations@) == Some(
                    acc[i].matched_criteria,
                ) && acc[i] == hit_of(pre[ci], rows[ri], acc[i].matched_criteria);
            assert(cves[ci] == pre[ci]);
        }
        assert forall|ci: int, ri: int| #[trigger]
            reported(rows, cves, ci, ri) && ci < last implies already_hit(
            acc,
            cves[ci].id@,
            rows[ri].cpe@,
        ) by {
            assert(cves[ci] == pre[ci]);
            assert(reported(rows, pre, ci, ri));
        }
        if high_or_critical(cve.severity@) {
            lemma_add_rows_law(acc, rows, cve);
            assert forall|i: int| 0 <= i < res.len() implies hit_from(#[trigger] res[i], rows, cves) by {
                if i < acc.len() {
                    assert(res[i] == acc[i]);
                } else {
                    assert(from_rows(res[i], rows, cve));
                    let ri = choose|ri: int|
                        0 <= ri < rows.len() && first_criteria(
                            #[trigger] rows[ri],
                            cve.configurations@,
                        ) == Some(res[i].matched_criteria) && res[i] == hit_of(
                            cve,
                            rows[ri],
                            res[i].matched_criteria,
                        );
                    assert(cves[last] == cve && rows[ri] == rows[ri]);
                }
            }
            assert forall|ci: int, ri: int| #[trigger] reported(rows, cves, ci, ri) implies already_hit(
                res,
                cves[ci].id@,
                rows[ri].cpe@,
            ) by {
                if ci < last {
                    let k = choose|k: int|
                        0 <= k < acc.len() && #[trigger] acc[k].cve_id == cves[ci].id@
                            && acc[k].inventory.cpe@ == rows[ri].cpe@;
                    assert(res[k] == acc[k]);
                } else {
                    assert(first_criteria(rows[ri], cve.configurations@) is Some);
                }
            }
        } else {
            assert forall|ci: int, ri: int| #[trigger] reported(rows, cves, ci, ri) implies ci < last by {
                if ci == last {
                    assert(high_or_critical(cve.severity@));
                }
            }
        }
    }
}

proof fn lemma_same_elements_cover(res: Seq<HitView>, rows: Seq<InventoryRow>, cves: Seq<StoredCve>)
    requires
        res.to_multiset() == collect_hits(rows, cves).to_multiset(),
    ensures
        forall|i: int| 0 <= i < res.len() ==> hit_from(#[trigger] res[i], rows, cves),
        forall|ci: int, ri: int|
            #[trigger] reported(rows, cves, ci, ri) ==> already_hit(res, cves[ci].id@, rows[ri].cpe@),
{
    broadcast use vstd::seq_lib::group_to_multiset_ensures;

    let col = collect_hits(rows, cves);
    findings_sound_and_complete(rows, cves);
    assert forall|i: int| 0 <= i < res.len() implies hit_from(#[trigger] res[i], rows, cves) by {
        assert(res.contains(res[i]));
        assert(res.to_multiset().count(res[i]) > 0);
        assert(col.to_multiset().count(res[i]) > 0);
        assert(col.contains(res[i]));
        let p = choose|p: int| 0 <= p < col.len() && col[p] == res[i];
        assert(hit_from(col[p], rows, cves));
    }
    assert forall|ci: int, ri: int| #[trigger] reported(rows, cves, ci, ri) implies already_hit(
        res,
        cves[ci].id@,
        rows[ri].cpe@,
    ) by {
        let k = choose|k: int|
            0 <= k < col.len() && #[trigger] col[k].cve_id == cves[ci].id@ && col[k].inventory.cpe@
                == rows[ri].cpe@;
        assert(col.contains(col[k]));
        assert(col.to_multiset().count(col[k]) > 0);
        assert(res.to_multiset().count(col[k]) > 0);
        assert(res.contains(col[k]));
        let q = choose|q: int| 0 <= q < res.len() && res[q] == col[k];
        assert(res[q].cve_id == cves[ci].id@);
    }
}

/// All High and Critical findings of the inventory, each (CVE id,
/// inventory CPE) pair once, in report order.
pub fn match_all(inventory: &[InventoryRow], cves: &[StoredCve]) -> (res: Vec<Hit>)
    ensures
        hit_views(res@).to_multiset() == collect_hits(inventory@, cves@).to_multiset(),
        in_report_order(hit_views(res@)),
        unique_keys(hit_views(res@)),
        all_high_or_critical(hit_views(res@)),
        forall|i: int|
            0 <= i < res.len() ==> hit_from(#[trigger] hit_views(res@)[i], inventory@, cves@),
        forall|i: int, j: int|
            0 <= i < j < res.len() ==> {
                &&& (upper((#[trigger] hit_views(res@)[j]).severity) == "CRITICAL"@ ==> upper(
                    (#[trigger] hit_views(res@)[i]).severity,
                ) == "CRITICAL"@)
                &&& (upper(hit_views(res@)[i].severity) == upper(hit_views(res@)[j].severity)
                    ==> !chars_lt(hit_views(res@)[j].cve_id, hit_views(res@)[i].cve_id))
            },
        forall|ci: int, ri: int|
            #[trigger] reported(inventory@, cves@, ci, ri) ==> already_hit(
                hit_views(res@),
                cves@[ci].id@,
                inventory@[ri].cpe@,
            ),
{
    broadcast use vstd::seq_lib::group_to_multiset_ensures;

    let mut hits = collect(inventory, cves);
    let ghost all = hit_views(hits@);
    let mut out: Vec<Hit> = Vec::new();
    assert(hit_views(out@).to_multiset().add(hit_views(hits@).to_multiset()) =~= all.to_multiset());
    while hits.len() > 0
        invariant
            hit_views(out@).to_multiset().add(hit_views(hits@).to_multiset()) == all.to_multiset(),
            in_report_order(hit_views(out@)),
        decreases hits.len(),
    {
        let ghost hv = hit_views(hits@);
        let h = hits.pop().unwrap();
        assert(hv =~= hit_views(hits@).push(h@));
        let mut k: usize = 0;
        while k < out.len() && !hit_goes_before(&h, &out[k])
            invariant
                k <= out.len(),
                forall|m: int| 0 <= m < k ==> !hit_before(h@, #[trigger] hit_views(out@)[m]),
            decreases out.len() - k,
        {
            k += 1;
        }
        let ghost ov = hit_views(out@);
        proof {
            if k < out.len() {
                assert forall|m: int| k <= m < ov.len() implies !hit_before(#[trigger] ov[m], h@) by {
                    if hit_before(ov[m], h@) {
                        if m > k {
                            lemma_hit_before_transitive(ov[m], h@, ov[k as int]);
                            assert(!hit_before(ov[m], ov[k as int]));
                        } else {
                            lemma_hit_before_asymmetric(ov[m], h@);
                        }
                    }
                }
            }
        }
        let ghost hv2 = hit_views(hits@);
        out.insert(k, h);
        assert(hit_views(out@) =~= ov.insert(k as int, h@));
        proof {
            vstd::seq_lib::to_multiset_insert(ov, k as int, h@);
            vstd::seq_lib::to_multiset_build(hv2, h@);
        }
        assert(hit_views(out@).to_multiset().add(hv2.to_multiset()) =~= ov.to_multiset().add(
            hv.to_multiset(),
        ));
        assert(in_report_order(hit_views(out@))) by {
            let nv = hit_views(out@);
            assert forall|i: int, j: int| 0 <= i < j < nv.len() implies !hit_before(
                #[trigger] nv[j],
                #[trigger] nv[i],
            ) by {
                if i < k && j < k {
                    assert(nv[i] == ov[i] && nv[j] == ov[j]);
                } else if i < k && j == k {
                    assert(nv[i] == ov[i]);
                } else if i < k {
                    assert(nv[i] == ov[i] && nv[j] == ov[j - 1]);
                } else if i == k {
                    assert(nv[j] == ov[j - 1]);
                } else {
                    assert(nv[i] == ov[i - 1] && nv[j] == ov[j - 1]);
                }
            }
        }
    }
    assert(hit_views(hits@).to_multiset() =~= Multiset::empty());
    proof {
        lemma_collect_facts(inventory@, cves@);
        assert(hit_views(out@).to_multiset() =~= all.to_multiset());
        lemma_same_elements_facts(hit_views(out@), collect_hits(inventory@, cves@));
        lemma_same_elements_cover(hit_views(out@), inventory@, cves@);
        report_order_law(hit_views(out@));
    }
    out
}

} // verus!
