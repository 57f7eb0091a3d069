//! The local database: stored CVEs with their NVD configurations.
use vstd::prelude::*;

use crate::text::{
    chars_lt, eq_ignore_case, lemma_chars_lt_asymmetric, lemma_chars_lt_irreflexive,
    lemma_chars_lt_total, lemma_chars_lt_transitive, lower, push_str, str_less,
};

verus! {

/// One `cpeMatch` entry of an NVD configuration node.
#[derive(Debug, Clone, Default)]
pub struct CpeMatch {
    pub vulnerable: bool,
    pub criteria: String,
    pub version_start_including: Option<String>,
    pub version_start_excluding: Option<String>,
    pub version_end_including: Option<String>,
    pub version_end_excluding: Option<String>,
}

/// A configuration node: its own `cpeMatch` entries and child nodes,
/// combined with AND or OR and possibly negated.
#[derive(Debug, Default)]
pub struct Node {
    pub operator: Option<String>,
    pub negate: Option<bool>,
    pub cpe_match: Vec<CpeMatch>,
    pub children: Vec<Node>,
}

impl Clone for Node {
    fn clone(&self) -> (r: Self)
        decreases self,
    {
        let mut children: Vec<Node> = Vec::new();
        let mut i: usize = 0;
        while i < self.children.len()
            invariant
                i <= self.children.len(),
            decreases self.children.len() - i,
        {
            assert(decreases_to!(self => self.children@[i as int]));
            children.push(self.children[i].clone());
            i += 1;
        }
        Node {
            operator: self.operator.clone(),
            negate: self.negate,
            cpe_match: self.cpe_match.clone(),
            children,
        }
    }
}

/// One NVD configuration: a list of nodes.
#[derive(Debug, Default)]
pub struct Configuration {
    pub operator: Option<String>,
    pub negate: Option<bool>,
    pub nodes: Vec<Node>,
}

impl Clone for Configuration {
    fn clone(&self) -> (r: Self) {
        Configuration {
            operator: self.operator.clone(),
            negate: self.negate,
            nodes: self.nodes.clone(),
        }
    }
}

/// A stored High or Critical CVE. `score` is the CVSS base score in tenths
/// (a base score of 7.5 is stored as 75).
#[derive(Debug, Clone)]
pub struct StoredCve {
    pub id: String,
    pub severity: String,
    pub score: Option<u32>,
    pub published: String,
    pub description: String,
    pub configurations: Vec<Configuration>,
}

pub const DB_FILENAME: &'static str = "nvd.json";

pub const SCHEMA_VERSION: u32 = 1;

/// How many stored CVEs are High, how many Critical, and how many in all.
#[derive(Debug, Clone, PartialEq, Eq)]
pub struct Counts {
    pub high: usize,
    pub critical: usize,
    pub total_stored: usize,
}

/// The whole local database.
#[derive(Debug, Clone)]
pub struct StoredDb {
    pub schema_version: u32,
    pub synced_at: String,
    pub source: String,
    pub counts: Counts,
    pub vulnerabilities: Vec<StoredCve>,
}

/// Number of CVEs whose severity equals `sev` up to ASCII case.
pub open spec fn count_severity(v: Seq<StoredCve>, sev: Seq<char>) -> nat
    decreases v.len(),
{
    if v.len() == 0 {
        0
    } else {
        count_severity(v.drop_last(), sev) + if lower(v.last().severity@) == lower(sev) {
            1nat
        } else {
            0nat
        }
    }
}

/// CVE ids never decrease along `v`.
pub open spec fn sorted_by_id(v: Seq<StoredCve>) -> bool {
    forall|i: int, j: int| 0 <= i < j < v.len() ==> !chars_lt(#[trigger] v[j].id@, #[trigger] v[i].id@)
}

proof fn lemma_count_bound(v: Seq<StoredCve>, sev: Seq<char>)
    ensures
        count_severity(v, sev) <= v.len(),
    decreases v.len(),
{
    if v.len() > 0 {
        lemma_count_bound(v.drop_last(), sev);
    }
}

fn count_with_severity(v: &Vec<StoredCve>, sev: &str) -> (n: usize)
    ensures
        n == count_severity(v@, sev@),
{
    let mut n: usize = 0;
    let mut i: usize = 0;
    while i < v.len()
        invariant
            i <= v.len(),
            n == count_severity(v@.take(i as int), sev@),
        decreases v.len() - i,
    {
        assert(v@.take(i + 1).drop_last() =~= v@.take(i as int));
        proof {
            lemma_count_bound(v@.take(i as int), sev@);
        }
        if eq_ignore_case(v[i].severity.as_str(), sev) {
            n += 1;
        }
        i += 1;
    }
    assert(v@.take(v.len() as int) =~= v@);
    n
}

/// Holds of a CVE whose id is `x`.
pub open spec fn id_is(x: Seq<char>) -> spec_fn(StoredCve) -> bool {
    |c: StoredCve| c.id@ == x
}

/// The CVEs of `v` whose id is `x`, in their order in `v`.
pub open spec fn with_id(v: Seq<StoredCve>, x: Seq<char>) -> Seq<StoredCve> {
    v.filter(id_is(x))
}

proof fn lemma_with_id_none(v: Seq<StoredCve>, x: Seq<char>)
    requires
        forall|m: int| 0 <= m < v.len() ==> #[trigger] v[m].id@ != x,
    ensures
        with_id(v, x) == Seq::<StoredCve>::empty(),
    decreases v.len(),
{
    reveal(Seq::filter);
    if v.len() > 0 {
        lemma_with_id_none(v.drop_last(), x);
    }
}

/// Places `c` before the first CVE of `ov` whose id is not below its own:
/// the CVEs of each id keep their order, with `c` first among its own.
proof fn lemma_insert_keeps_order(ov: Seq<StoredCve>, k: int, c: StoredCve, x: Seq<char>)
    requires
        0 <= k <= ov.len(),
        forall|m: int| 0 <= m < k ==> chars_lt(#[trigger] ov[m].id@, c.id@),
    ensures
        with_id(ov.insert(k, c), x) == with_id(seq![c] + ov, x),
{
    let pre = ov.take(k);
    let post = ov.skip(k);
    assert(ov =~= pre + post);
    assert(ov.insert(k, c) =~= pre + (seq![c] + post));
    Seq::filter_distributes_over_add(pre, seq![c] + post, id_is(x));
    Seq::filter_distributes_over_add(pre, post, id_is(x));
    post.lemma_filter_prepend(c, id_is(x));
    ov.lemma_filter_prepend(c, id_is(x));
    if c.id@ == x {
        assert forall|m: int| 0 <= m < pre.len() implies #[trigger] pre[m].id@ != x by {
            lemma_chars_lt_irreflexive(c.id@);
            assert(chars_lt(ov[m].id@, c.id@));
        }
        lemma_with_id_none(pre, x);
        assert(with_id(pre, x) + with_id(post, x) =~= with_id(post, x));
    }
    assert(with_id(pre, x) + (Seq::<StoredCve>::empty() + with_id(post, x)) =~= with_id(pre, x)
        + with_id(post, x));
}

/// `v` sorted by CVE id; CVEs with equal ids keep their order (a stable
/// sort).
fn sort_by_id(v: Vec<StoredCve>) -> (res: Vec<StoredCve>)
    ensures
        res@.to_multiset() == v@.to_multiset(),
        sorted_by_id(res@),
        forall|x: Seq<char>| #[trigger] with_id(res@, x) == with_id(v@, x),
{
    broadcast use vstd::seq_lib::group_to_multiset_ensures;

    let mut rest = v;
    let ghost all = rest@;
    let mut out: Vec<StoredCve> = Vec::new();
    assert(out@.to_multiset().add(rest@.to_multiset()) =~= all.to_multiset());
    proof {
        assert(all.take(all.len() as int) =~= all);
        assert forall|x: Seq<char>| #[trigger] with_id(out@, x) == with_id(
            all.skip(all.len() as int),
            x,
        ) by {
            reveal(Seq::filter);
            assert(all.skip(all.len() as int) =~= out@);
        }
    }
    while rest.len() > 0
        invariant
            out@.to_multiset().add(rest@.to_multiset()) == all.to_multiset(),
            sorted_by_id(out@),
            rest.len() <= all.len(),
            rest@ == all.take(rest.len() as int),
            forall|x: Seq<char>| #[trigger] with_id(out@, x) == with_id(
                all.skip(rest.len() as int),
                x,
            ),
        decreases rest.len(),
    {
        let ghost rv = rest@;
        let c = rest.pop().unwrap();
        let ghost rv2 = rest@;
        let ghost r = rest.len() as int;
        assert(rv =~= rv2.push(c));
        assert(rv2 =~= all.take(r));
        assert(all.skip(r) =~= seq![c] + all.skip(r + 1));
        let mut k: usize = 0;
        while k < out.len() && str_less(out[k].id.as_str(), c.id.as_str())
            invariant
                k <= out.len(),
                forall|m: int| 0 <= m < k ==> chars_lt(#[trigger] out@[m].id@, c.id@),
            decreases out.len() - k,
        {
            k += 1;
        }
        let ghost ov = out@;
        proof {
            if k < out.len() {
                assert forall|m: int| k <= m < ov.len() implies !chars_lt(
                    #[trigger] ov[m].id@,
                    c.id@,
                ) by {
                    if m > k && chars_lt(ov[m].id@, c.id@) {
                        lemma_chars_lt_total(ov[k as int].id@, c.id@);
                        if ov[k as int].id@ != c.id@ {
                            lemma_chars_lt_transitive(ov[m].id@, c.id@, ov[k as int].id@);
                        }
                    }
                }
            }
        }
        out.insert(k, c);
        proof {
            vstd::seq_lib::to_multiset_insert(ov, k as int, c);
            vstd::seq_lib::to_multiset_build(rv2, c);
            assert forall|x: Seq<char>| #[trigger] with_id(out@, x) == with_id(all.skip(r), x) by {
                lemma_insert_keeps_order(ov, k as int, c, x);
                (all.skip(r + 1)).lemma_filter_prepend(c, id_is(x));
                ov.lemma_filter_prepend(c, id_is(x));
                assert(with_id(ov, x) == with_id(all.skip(r + 1), x));
                assert(out@ == ov.insert(k as int, c));
            }
        }
        assert(out@.to_multiset().add(rv2.to_multiset()) =~= ov.to_multiset().add(rv.to_multiset()));
        assert(sorted_by_id(out@)) by {
            let nv = out@;
            assert forall|i: int, j: int| 0 <= i < j < nv.len() implies !chars_lt(
                #[trigger] nv[j].id@,
                #[trigger] nv[i].id@,
            ) by {
                if i < k && j < k {
                    assert(nv[i] == ov[i] && nv[j] == ov[j]);
                } else if i < k && j == k {
                    assert(nv[i] == ov[i]);
                    lemma_chars_lt_asymmetric(ov[i].id@, c.id@);
                } else if i < k {
                    assert(nv[i] == ov[i] && nv[j] == ov[j - 1]);
                } else if i == k {
                    assert(nv[j] == ov[j - 1]);
                } else {
                    assert(nv[i] == ov[i - 1] && nv[j] == ov[j - 1]);
                }
            }
        }
    }
    assert(rest@.to_multiset() =~= vstd::multiset::Multiset::empty());
    assert(all.skip(0) =~= all);
    out
}

/// When every CVE is High or Critical, the High and Critical counts add up
/// to the number of CVEs.
pub proof fn severity_counts_cover(v: Seq<StoredCve>)
    requires
        forall|i: int| 0 <= i < v.len() ==> crate::cpe::high_or_critical(#[trigger] v[i].severity@),
    ensures
        count_severity(v, "HIGH"@) + count_severity(v, "CRITICAL"@) == v.len(),
    decreases v.len(),
{
    if v.len() > 0 {
        let w = v.drop_last();
        assert forall|i: int| 0 <= i < w.len() implies crate::cpe::high_or_critical(
            #[trigger] w[i].severity@,
        ) by {
            assert(w[i] == v[i]);
        }
        severity_counts_cover(w);
        reveal_strlit("HIGH");
        reveal_strlit("CRITICAL");
        let sev = v.last().severity@;
        assert(crate::cpe::high_or_critical(v[v.len() - 1].severity@));
        crate::text::lemma_lower_upper(sev);
        assert(lower("HIGH"@) != lower("CRITICAL"@)) by {
            assert(lower("HIGH"@).len() != lower("CRITICAL"@).len());
        }
        if crate::text::upper(sev) == "HIGH"@ {
            assert(lower(sev) == lower("HIGH"@));
        } else {
            assert(lower(sev) == lower("CRITICAL"@));
        }
    }
}

/// High and Critical counts never exceed the number of CVEs counted.
pub proof fn severity_counts_bounded(v: Seq<StoredCve>)
    ensures
        count_severity(v, "HIGH"@) + count_severity(v, "CRITICAL"@) <= v.len(),
    decreases v.len(),
{
    if v.len() > 0 {
        severity_counts_bounded(v.drop_last());
        reveal_strlit("HIGH");
        reveal_strlit("CRITICAL");
        assert(lower("HIGH"@) != lower("CRITICAL"@)) by {
            assert(lower("HIGH"@).len() != lower("CRITICAL"@).len());
        }
    }
}

impl StoredDb {
    /// A database of `vulns`, stably sorted by CVE id, with their counts.
    pub fn from_cves(source: String, synced_at: String, vulns: Vec<StoredCve>) -> (db: Self)
        ensures
            db.schema_version == SCHEMA_VERSION,
            db.source == source,
            db.synced_at == synced_at,
            db.vulnerabilities@.to_multiset() == vulns@.to_multiset(),
            sorted_by_id(db.vulnerabilities@),
            forall|x: Seq<char>| #[trigger] with_id(db.vulnerabilities@, x) == with_id(vulns@, x),
            db.counts.high == count_severity(vulns@, "HIGH"@),
            db.counts.critical == count_severity(vulns@, "CRITICAL"@),
            db.counts.total_stored == vulns@.len(),
    {
        let high = count_with_severity(&vulns, "HIGH");
        let critical = count_with_severity(&vulns, "CRITICAL");
        let total_stored = vulns.len();
        let sorted = sort_by_id(vulns);
        StoredDb {
            schema_version: SCHEMA_VERSION,
            synced_at,
            source,
            counts: Counts { high, critical, total_stored },
            vulnerabilities: sorted,
        }
    }
}

// ---------------------------------------------------------------------------
// Paths
// ---------------------------------------------------------------------------

/// `base` joined with the relative path `rel`: a `/` between them unless
/// `base` is empty or already ends with one.
pub open spec fn join_path(base: Seq<char>, rel: Seq<char>) -> Seq<char> {
    if base.len() == 0 || base.last() == '/' {
        base + rel
    } else {
        base + "/"@ + rel
    }
}

/// `base` joined with the relative path `rel` (`Path::join` on Unix, for a
/// relative `rel`).
pub fn path_join(base: &str, rel: &str) -> (p: String)
    ensures
        p@ == join_path(base@, rel@),
{
    let cs = crate::text::chars_of(base);
    let mut out = base.to_owned();
    if cs.len() > 0 && cs[cs.len() - 1] != '/' {
        push_str(&mut out, "/");
    }
    push_str(&mut out, rel);
    out
}

/// Data directory from `XDG_CACHE_HOME` and `HOME`: `$XDG_CACHE_HOME/crityoink`
/// when that is set and not empty, else `$HOME/.cache/crityoink`, else the
/// relative `.cache/crityoink`.
pub open spec fn data_dir_of(xdg: Option<Seq<char>>, home: Option<Seq<char>>) -> Seq<char> {
    match xdg {
        Some(x) if x.len() > 0 => join_path(x, "crityoink"@),
        _ => match home {
            Some(h) => join_path(join_path(h, ".cache"@), "crityoink"@),
            None => join_path(".cache"@, "crityoink"@),
        },
    }
}

pub fn data_dir_from_env(xdg_cache: Option<&str>, home: Option<&str>) -> (d: String)
    ensures
        d@ == data_dir_of(
            match xdg_cache {
                Some(x) => Some(x@),
                None => None,
            },
            match home {
                Some(h) => Some(h@),
                None => None,
            },
        ),
{
    if let Some(x) = xdg_cache {
        if crate::text::chars_of(x).len() > 0 {
            return path_join(x, "crityoink");
        }
    }
    match home {
        Some(h) => {
            let c = path_join(h, ".cache");
            path_join(c.as_str(), "crityoink")
        },
        None => path_join(".cache", "crityoink"),
    }
}

/// The database file in `data_dir`.
pub fn db_path(data_dir: &str) -> (p: String)
    ensures
        p@ == join_path(data_dir@, DB_FILENAME@),
{
    path_join(data_dir, DB_FILENAME)
}

} // verus!
