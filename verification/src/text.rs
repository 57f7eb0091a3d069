//! Character-level text handling: ASCII case mapping, trimming, splitting,
//! searching and decimal formatting, each stated over `Seq<char>`.
use vstd::prelude::*;

verus! {

// ---------------------------------------------------------------------------
// Specifications
// ---------------------------------------------------------------------------

pub open spec fn is_ascii_upper(c: char) -> bool {
    'A' <= c && c <= 'Z'
}

pub open spec fn is_ascii_lower(c: char) -> bool {
    'a' <= c && c <= 'z'
}

pub open spec fn is_ascii_digit(c: char) -> bool {
    '0' <= c && c <= '9'
}

pub open spec fn is_ascii_alpha(c: char) -> bool {
    is_ascii_upper(c) || is_ascii_lower(c)
}

pub open spec fn lower_char(c: char) -> char {
    if is_ascii_upper(c) {
        ((c as u32) + 32) as char
    } else {
        c
    }
}

pub open spec fn upper_char(c: char) -> char {
    if is_ascii_lower(c) {
        ((c as u32) - 32) as char
    } else {
        c
    }
}

/// ASCII lowercase of a character sequence (other characters unchanged).
pub open spec fn lower(s: Seq<char>) -> Seq<char> {
    s.map_values(|c: char| lower_char(c))
}

/// ASCII uppercase of a character sequence (other characters unchanged).
pub open spec fn upper(s: Seq<char>) -> Seq<char> {
    s.map_values(|c: char| upper_char(c))
}

/// Unicode `White_Space`, the set that `char::is_whitespace` accepts.
pub open spec fn is_space(c: char) -> bool {
    let u = c as u32;
    ||| 9 <= u <= 13
    ||| u == 32
    ||| u == 0x85
    ||| u == 0xA0
    ||| u == 0x1680
    ||| 0x2000 <= u <= 0x200A
    ||| u == 0x2028
    ||| u == 0x2029
    ||| u == 0x202F
    ||| u == 0x205F
    ||| u == 0x3000
}

pub open spec fn trim_start(s: Seq<char>) -> Seq<char>
    decreases s.len(),
{
    if s.len() > 0 && is_space(s[0]) {
        trim_start(s.drop_first())
    } else {
        s
    }
}

pub open spec fn trim_end(s: Seq<char>) -> Seq<char>
    decreases s.len(),
{
    if s.len() > 0 && is_space(s.last()) {
        trim_end(s.drop_last())
    } else {
        s
    }
}

/// `s` without leading and trailing whitespace.
pub open spec fn trim(s: Seq<char>) -> Seq<char> {
    trim_end(trim_start(s))
}

/// The pieces of `s` between occurrences of `sep` (there is always at least one).
pub open spec fn split(s: Seq<char>, sep: char) -> Seq<Seq<char>>
    decreases s.len(),
{
    if s.len() == 0 {
        seq![Seq::empty()]
    } else {
        let p = split(s.drop_last(), sep);
        if s.last() == sep {
            p.push(Seq::empty())
        } else {
            p.update(p.len() - 1, p.last().push(s.last()))
        }
    }
}

pub open spec fn starts_with(s: Seq<char>, p: Seq<char>) -> bool {
    p.len() <= s.len() && s.subrange(0, p.len() as int) == p
}

/// `p` occurs somewhere in `s` as a contiguous piece.
pub open spec fn contains(s: Seq<char>, p: Seq<char>) -> bool {
    exists|i: int| 0 <= i && i + p.len() <= s.len() && #[trigger] s.subrange(i, i + p.len()) == p
}

pub open spec fn digit_char(d: nat) -> char {
    (d + 48) as char
}

/// Decimal notation of `n`, without sign or leading zeros.
pub open spec fn decimal(n: nat) -> Seq<char>
    decreases n,
{
    if n < 10 {
        seq![digit_char(n)]
    } else {
        decimal(n / 10).push(digit_char(n % 10))
    }
}

/// Strict lexicographic order on character sequences (code point order,
/// which is the byte order of their UTF-8 encodings).
pub open spec fn chars_lt(a: Seq<char>, b: Seq<char>) -> bool
    decreases a.len(),
{
    if b.len() == 0 {
        false
    } else if a.len() == 0 {
        true
    } else if a[0] != b[0] {
        (a[0] as int) < (b[0] as int)
    } else {
        chars_lt(a.drop_first(), b.drop_first())
    }
}

/// The pieces joined with `sep` between consecutive pieces.
pub open spec fn join(parts: Seq<Seq<char>>, sep: Seq<char>) -> Seq<char>
    decreases parts.len(),
{
    if parts.len() == 0 {
        Seq::empty()
    } else if parts.len() == 1 {
        parts[0]
    } else {
        join(parts.drop_last(), sep) + sep + parts.last()
    }
}

pub open spec fn views(v: Seq<String>) -> Seq<Seq<char>> {
    v.map_values(|s: String| s@)
}

// ---------------------------------------------------------------------------
// Lemmas
// ---------------------------------------------------------------------------

pub proof fn lemma_split_nonempty(s: Seq<char>, sep: char)
    ensures
        split(s, sep).len() >= 1,
    decreases s.len(),
{
    if s.len() > 0 {
        lemma_split_nonempty(s.drop_last(), sep);
    }
}

proof fn lemma_trim_start_skip(s: Seq<char>, i: int)
    requires
        0 <= i < s.len(),
        is_space(s[i]),
    ensures
        trim_start(s.skip(i)) == trim_start(s.skip(i + 1)),
{
    assert(s.skip(i).drop_first() =~= s.skip(i + 1));
}

proof fn lemma_trim_end_take(s: Seq<char>, j: int)
    requires
        0 < j <= s.len(),
        is_space(s[j - 1]),
    ensures
        trim_end(s.take(j)) == trim_end(s.take(j - 1)),
{
    assert(s.take(j).drop_last() =~= s.take(j - 1));
}

pub proof fn lemma_chars_lt_irreflexive(a: Seq<char>)
    ensures
        !chars_lt(a, a),
    decreases a.len(),
{
    if a.len() > 0 {
        lemma_chars_lt_irreflexive(a.drop_first());
    }
}

pub proof fn lemma_chars_lt_asymmetric(a: Seq<char>, b: Seq<char>)
    ensures
        !(chars_lt(a, b) && chars_lt(b, a)),
    decreases a.len(),
{
    if a.len() > 0 && b.len() > 0 && a[0] == b[0] {
        lemma_chars_lt_asymmetric(a.drop_first(), b.drop_first());
    }
}

pub proof fn lemma_chars_lt_total(a: Seq<char>, b: Seq<char>)
    ensures
        chars_lt(a, b) || chars_lt(b, a) || a == b,
    decreases a.len(),
{
    if a.len() == 0 && b.len() == 0 {
        assert(a =~= b);
    } else if a.len() > 0 && b.len() > 0 && a[0] == b[0] {
        lemma_chars_lt_total(a.drop_first(), b.drop_first());
        if a.drop_first() == b.drop_first() {
            assert forall|i: int| 0 <= i < a.len() implies a[i] == b[i] by {
                if i > 0 {
                    assert(a[i] == a.drop_first()[i - 1]);
                    assert(b[i] == b.drop_first()[i - 1]);
                }
            }
            assert(a =~= b);
        }
    } else if a.len() > 0 && b.len() > 0 {
        assert((a[0] as int) != (b[0] as int));
    }
}

pub proof fn lemma_chars_lt_transitive(a: Seq<char>, b: Seq<char>, c: Seq<char>)
    requires
        chars_lt(a, b),
        chars_lt(b, c),
    ensures
        chars_lt(a, c),
    decreases a.len(),
{
    if a.len() > 0 && b.len() > 0 && c.len() > 0 && a[0] == b[0] && b[0] == c[0] {
        lemma_chars_lt_transitive(a.drop_first(), b.drop_first(), c.drop_first());
    }
}

/// Trimming the end of a text after a non-space prefix only trims the rest.
pub proof fn lemma_trim_end_after(p: Seq<char>, x: Seq<char>)
    requires
        p.len() > 0,
        !is_space(p.last()),
    ensures
        trim_end(p + x) == p + trim_end(x),
    decreases x.len(),
{
    if x.len() == 0 {
        assert(p + x =~= p);
        assert(p + trim_end(x) =~= p);
    } else {
        assert((p + x).last() == x.last());
        if is_space(x.last()) {
            assert((p + x).drop_last() =~= p + x.drop_last());
            lemma_trim_end_after(p, x.drop_last());
        }
    }
}

/// A text that starts with a non-space is its own `trim_start`.
pub proof fn lemma_trim_start_nonspace(s: Seq<char>)
    requires
        s.len() > 0,
        !is_space(s[0]),
    ensures
        trim_start(s) == s,
{
}

/// A text without the separator is a single piece.
pub proof fn lemma_split_single(w: Seq<char>, sep: char)
    requires
        forall|i: int| 0 <= i < w.len() ==> w[i] != sep,
    ensures
        split(w, sep) == seq![w],
    decreases w.len(),
{
    if w.len() > 0 {
        lemma_split_single(w.drop_last(), sep);
        assert(w.drop_last().push(w.last()) =~= w);
        assert(seq![w.drop_last()].update(0, w.drop_last().push(w.last())) =~= seq![w]);
    } else {
        assert(w =~= Seq::<char>::empty());
    }
}

/// Splitting after a separator: the pieces of `a` (its empty last piece
/// dropped) followed by the pieces of `b`.
pub proof fn lemma_split_concat(a: Seq<char>, b: Seq<char>, sep: char)
    requires
        a.len() > 0,
        a.last() == sep,
    ensures
        split(a + b, sep) == split(a, sep).drop_last() + split(b, sep),
    decreases b.len(),
{
    if b.len() == 0 {
        assert(a + b =~= a);
        assert(a.drop_last().push(sep) =~= a);
        assert(split(a, sep) == split(a.drop_last(), sep).push(Seq::empty()));
        assert(split(a, sep).drop_last() + split(b, sep) =~= split(a, sep));
    } else {
        lemma_split_concat(a, b.drop_last(), sep);
        lemma_split_nonempty(b.drop_last(), sep);
        assert((a + b).drop_last() =~= a + b.drop_last());
        assert((a + b).last() == b.last());
        let l = split(a, sep).drop_last();
        let t = split(b.drop_last(), sep);
        if b.last() == sep {
            assert((l + t).push(Seq::empty()) =~= l + t.push(Seq::empty()));
        } else {
            assert((l + t).update((l + t).len() - 1, (l + t).last().push(b.last())) =~= l + t.update(
                t.len() - 1,
                t.last().push(b.last()),
            ));
        }
    }
}

pub proof fn lemma_upper_idempotent(s: Seq<char>)
    ensures
        upper(upper(s)) == upper(s),
{
    assert forall|i: int| 0 <= i < s.len() implies upper_char(upper_char(s[i])) == upper_char(s[i]) by {
        let c = s[i];
        if is_ascii_lower(c) {
            assert(!is_ascii_lower(((c as u32) - 32) as char));
        }
    }
    assert(upper(upper(s)) =~= upper(s));
}

proof fn lemma_trim_start_head(s: Seq<char>)
    ensures
        trim_start(s).len() > 0 ==> !is_space(trim_start(s)[0]),
    decreases s.len(),
{
    if s.len() > 0 && is_space(s[0]) {
        lemma_trim_start_head(s.drop_first());
    }
}

proof fn lemma_trim_end_keeps_head(s: Seq<char>)
    requires
        s.len() > 0,
        !is_space(s[0]),
    ensures
        trim_end(s).len() > 0,
        trim_end(s)[0] == s[0],
    decreases s.len(),
{
    if is_space(s.last()) {
        assert(s.len() > 1);
        assert(s.drop_last()[0] == s[0]);
        lemma_trim_end_keeps_head(s.drop_last());
    }
}

proof fn lemma_trim_end_idempotent(s: Seq<char>)
    ensures
        trim_end(trim_end(s)) == trim_end(s),
    decreases s.len(),
{
    if s.len() > 0 && is_space(s.last()) {
        lemma_trim_end_idempotent(s.drop_last());
    }
}

/// Trimming a trimmed text changes nothing.
pub proof fn lemma_trim_idempotent(s: Seq<char>)
    ensures
        trim(trim(s)) == trim(s),
{
    let t = trim_start(s);
    lemma_trim_start_head(s);
    lemma_trim_end_idempotent(t);
    if t.len() > 0 {
        lemma_trim_end_keeps_head(t);
        lemma_trim_start_nonspace(trim_end(t));
    } else {
        assert(trim_end(t) =~= t);
    }
}

/// Lowercasing after uppercasing is lowercasing.
pub proof fn lemma_lower_upper(s: Seq<char>)
    ensures
        lower(upper(s)) == lower(s),
{
    assert forall|i: int| 0 <= i < s.len() implies lower_char(upper_char(s[i])) == lower_char(s[i]) by {
        let c = s[i];
        if is_ascii_lower(c) {
            assert(is_ascii_upper(((c as u32) - 32) as char));
            assert(((((c as u32) - 32) as char) as u32 + 32) as char == c);
        }
    }
    assert(lower(upper(s)) =~= lower(s));
}

pub proof fn lemma_lower_idempotent(s: Seq<char>)
    ensures
        lower(lower(s)) == lower(s),
{
    assert forall|i: int| 0 <= i < s.len() implies lower_char(lower_char(s[i])) == lower_char(s[i]) by {
        let c = s[i];
        if is_ascii_upper(c) {
            assert(!is_ascii_upper(((c as u32) + 32) as char));
        }
    }
    assert(lower(lower(s)) =~= lower(s));
}

// ---------------------------------------------------------------------------
// Executable functions
// ---------------------------------------------------------------------------

/// Appends one character to a string (`String::push`).
#[verifier::external_body]
pub(crate) fn push_char(s: &mut String, c: char)
    ensures
        final(s)@ == old(s)@.push(c),
{
    s.push(c);
}

/// Appends `t` to `s`.
pub fn push_str(s: &mut String, t: &str)
    ensures
        final(s)@ == old(s)@ + t@,
{
    for c in it: t.chars()
        invariant
            it.seq() == t@,
            s@ == old(s)@ + t@.take(it.index() as int),
    {
        push_char(s, c);
        assert(t@.take(it.index() + 1) =~= t@.take(it.index() as int).push(c));
    }
    assert(t@.take(t@.len() as int) =~= t@);
}

/// The characters of `s`, one per element.
pub fn chars_of(s: &str) -> (res: Vec<char>)
    ensures
        res@ == s@,
{
    let mut out: Vec<char> = Vec::new();
    for c in it: s.chars()
        invariant
            it.seq() == s@,
            out@ == s@.take(it.index() as int),
    {
        out.push(c);
        assert(s@.take(it.index() + 1) =~= s@.take(it.index() as int).push(c));
    }
    assert(s@.take(s@.len() as int) =~= s@);
    out
}

/// The string made of `cs[lo..hi]`.
pub fn string_of(cs: &Vec<char>, lo: usize, hi: usize) -> (res: String)
    requires
        lo <= hi <= cs.len(),
    ensures
        res@ == cs@.subrange(lo as int, hi as int),
{
    let mut out = String::new();
    let mut i = lo;
    while i < hi
        invariant
            lo <= i <= hi <= cs.len(),
            out@ == cs@.subrange(lo as int, i as int),
        decreases hi - i,
    {
        push_char(&mut out, cs[i]);
        assert(cs@.subrange(lo as int, i + 1) =~= cs@.subrange(lo as int, i as int).push(cs@[i as int]));
        i += 1;
    }
    out
}

pub fn char_is_digit(c: char) -> (b: bool)
    ensures
        b == is_ascii_digit(c),
{
    '0' <= c && c <= '9'
}

pub fn char_is_alpha(c: char) -> (b: bool)
    ensures
        b == is_ascii_alpha(c),
{
    ('A' <= c && c <= 'Z') || ('a' <= c && c <= 'z')
}

pub fn char_is_space(c: char) -> (b: bool)
    ensures
        b == is_space(c),
{
    let u = c as u32;
    (9 <= u && u <= 13) || u == 32 || u == 0x85 || u == 0xA0 || u == 0x1680 || (0x2000 <= u && u
        <= 0x200A) || u == 0x2028 || u == 0x2029 || u == 0x202F || u == 0x205F || u == 0x3000
}

pub fn char_lower(c: char) -> (d: char)
    ensures
        d == lower_char(c),
{
    if 'A' <= c && c <= 'Z' {
        ((c as u8) + 32) as char
    } else {
        c
    }
}

pub fn char_upper(c: char) -> (d: char)
    ensures
        d == upper_char(c),
{
    if 'a' <= c && c <= 'z' {
        ((c as u8) - 32) as char
    } else {
        c
    }
}

/// ASCII lowercase copy of `s`.
pub fn ascii_lowercase(s: &str) -> (res: String)
    ensures
        res@ == lower(s@),
{
    let mut out = String::new();
    for c in it: s.chars()
        invariant
            it.seq() == s@,
            out@ == lower(s@.take(it.index() as int)),
    {
        push_char(&mut out, char_lower(c));
        assert(s@.take(it.index() + 1) == s@.take(it.index() as int).push(c));
    }
    assert(s@.take(s@.len() as int) =~= s@);
    out
}

/// ASCII uppercase copy of `s`.
pub fn ascii_uppercase(s: &str) -> (res: String)
    ensures
        res@ == upper(s@),
{
    let mut out = String::new();
    for c in it: s.chars()
        invariant
            it.seq() == s@,
            out@ == upper(s@.take(it.index() as int)),
    {
        push_char(&mut out, char_upper(c));
        assert(s@.take(it.index() + 1) == s@.take(it.index() as int).push(c));
    }
    assert(s@.take(s@.len() as int) =~= s@);
    out
}

/// `s` without leading and trailing whitespace.
pub fn trimmed(s: &str) -> (res: String)
    ensures
        res@ == trim(s@),
{
    let cs = chars_of(s);
    let n = cs.len();
    let mut i: usize = 0;
    assert(cs@.skip(0) =~= cs@);
    while i < n && char_is_space(cs[i])
        invariant
            i <= n == cs@.len(),
            cs@ == s@,
            trim_start(s@) == trim_start(cs@.skip(i as int)),
        decreases n - i,
    {
        proof {
            lemma_trim_start_skip(cs@, i as int);
        }
        i += 1;
    }
    let ghost rest = cs@.skip(i as int);
    assert(trim_start(rest) == rest) by {
        if rest.len() > 0 {
            assert(rest[0] == cs@[i as int]);
        }
    }
    let mut j: usize = n;
    assert(rest.take(rest.len() as int) =~= rest);
    while j > i && char_is_space(cs[j - 1])
        invariant
            i <= j <= n == cs@.len(),
            rest == cs@.skip(i as int),
            trim_end(rest) == trim_end(rest.take(j - i)),
        decreases j,
    {
        proof {
            assert(rest[j - 1 - i] == cs@[j - 1]);
            lemma_trim_end_take(rest, j - i);
        }
        j -= 1;
    }
    let ghost kept = rest.take(j - i);
    assert(trim_end(kept) == kept) by {
        if kept.len() > 0 {
            assert(kept.last() == cs@[j - 1]);
        }
    }
    assert(kept =~= cs@.subrange(i as int, j as int));
    string_of(&cs, i, j)
}

/// Whether `s` begins with `p`.
pub fn has_prefix(s: &str, p: &str) -> (b: bool)
    ensures
        b == starts_with(s@, p@),
{
    let cs = chars_of(s);
    let ps = chars_of(p);
    if ps.len() > cs.len() {
        return false;
    }
    let mut i: usize = 0;
    while i < ps.len()
        invariant
            i <= ps.len() <= cs.len(),
            cs@ == s@,
            ps@ == p@,
            forall|k: int| 0 <= k < i ==> cs@[k] == ps@[k],
        decreases ps.len() - i,
    {
        if cs[i] != ps[i] {
            assert(s@.subrange(0, p@.len() as int)[i as int] != p@[i as int]);
            return false;
        }
        i += 1;
    }
    assert(s@.subrange(0, p@.len() as int) =~= p@);
    true
}

fn matches_at(cs: &Vec<char>, ps: &Vec<char>, i: usize) -> (b: bool)
    requires
        i + ps.len() <= cs.len(),
    ensures
        b == (cs@.subrange(i as int, i + ps.len()) == ps@),
{
    let mut k: usize = 0;
    while k < ps.len()
        invariant
            k <= ps.len(),
            i + ps.len() <= cs.len(),
            forall|m: int| 0 <= m < k ==> cs@[i + m] == ps@[m],
        decreases ps.len() - k,
    {
        if cs[i + k] != ps[k] {
            assert(cs@.subrange(i as int, i + ps.len())[k as int] != ps@[k as int]);
            return false;
        }
        k += 1;
    }
    assert(cs@.subrange(i as int, i + ps.len()) =~= ps@);
    true
}

/// Whether `p` occurs in `s`.
pub fn has_substring(s: &str, p: &str) -> (b: bool)
    ensures
        b == contains(s@, p@),
{
    let cs = chars_of(s);
    let ps = chars_of(p);
    if ps.len() > cs.len() {
        return false;
    }
    let mut i: usize = 0;
    let last = cs.len() - ps.len();
    loop
        invariant
            ps.len() <= cs.len(),
            last == cs.len() - ps.len(),
            cs@ == s@,
            ps@ == p@,
            i <= last,
            forall|k: int| 0 <= k < i ==> #[trigger] cs@.subrange(k, k + ps.len()) != ps@,
        decreases last - i,
    {
        if matches_at(&cs, &ps, i) {
            return true;
        }
        if i == last {
            return false;
        }
        i += 1;
    }
}

/// Whether `a` and `b` have the same characters.
pub fn str_equal(a: &str, b: &str) -> (r: bool)
    ensures
        r == (a@ == b@),
{
    let x = a.to_owned();
    let y = b.to_owned();
    x == y
}

/// Whether `a` and `b` are equal up to ASCII case.
pub fn eq_ignore_case(a: &str, b: &str) -> (r: bool)
    ensures
        r == (lower(a@) == lower(b@)),
{
    let x = ascii_lowercase(a);
    let y = ascii_lowercase(b);
    x == y
}

/// Splits `s` at every `sep`.
pub fn split_at_char(s: &str, sep: char) -> (res: Vec<String>)
    ensures
        views(res@) == split(s@, sep),
{
    let mut parts: Vec<String> = Vec::new();
    let mut cur = String::new();
    for c in it: s.chars()
        invariant
            it.seq() == s@,
            split(s@.take(it.index() as int), sep) == views(parts@).push(cur@),
    {
        let ghost pre = s@.take(it.index() as int);
        let ghost next = s@.take(it.index() + 1);
        assert(next.drop_last() =~= pre);
        if c == sep {
            let ghost old_parts = parts@;
            let done = cur;
            parts.push(done);
            cur = String::new();
            assert(views(parts@) =~= views(old_parts).push(done@));
        } else {
            let ghost old_cur = cur@;
            push_char(&mut cur, c);
            proof {
                lemma_split_nonempty(pre, sep);
            }
            assert(views(parts@).push(cur@) =~= split(pre, sep).update(
                split(pre, sep).len() - 1,
                old_cur.push(c),
            ));
        }
    }
    assert(s@.take(s@.len() as int) =~= s@);
    parts.push(cur);
    assert(views(parts@) =~= split(s@, sep));
    parts
}

/// Decimal notation of `n`, appended to `out`.
pub fn push_decimal(out: &mut String, n: u64)
    ensures
        final(out)@ == old(out)@ + decimal(n as nat),
    decreases n,
{
    if n >= 10 {
        push_decimal(out, n / 10);
    }
    let d = (n % 10) as u8;
    push_char(out, (d + 48) as char);
    assert(old(out)@ + decimal(n as nat) =~= (if n >= 10 {
        old(out)@ + decimal((n / 10) as nat)
    } else {
        old(out)@
    }).push(digit_char((n % 10) as nat)));
}

/// Decimal notation of `n`.
pub fn decimal_string(n: u64) -> (res: String)
    ensures
        res@ == decimal(n as nat),
{
    let mut s = String::new();
    push_decimal(&mut s, n);
    assert(s@ =~= decimal(n as nat));
    s
}

/// Whether `a` sorts strictly before `b`.
pub fn str_less(a: &str, b: &str) -> (r: bool)
    ensures
        r == chars_lt(a@, b@),
{
    let x = chars_of(a);
    let y = chars_of(b);
    let mut i: usize = 0;
    assert(x@.skip(0) =~= x@);
    assert(y@.skip(0) =~= y@);
    while i < x.len() && i < y.len()
        invariant
            i <= x.len(),
            i <= y.len(),
            x@ == a@,
            y@ == b@,
            chars_lt(a@, b@) == chars_lt(x@.skip(i as int), y@.skip(i as int)),
        decreases x.len() - i,
    {
        if x[i] != y[i] {
            return x[i] < y[i];
        }
        assert(x@.skip(i as int).drop_first() =~= x@.skip(i + 1));
        assert(y@.skip(i as int).drop_first() =~= y@.skip(i + 1));
        i += 1;
    }
    i < y.len()
}

/// The pieces joined with `sep`.
pub fn join_strings(parts: &Vec<String>, sep: &str) -> (res: String)
    ensures
        res@ == join(views(parts@), sep@),
{
    let mut out = String::new();
    let mut i: usize = 0;
    while i < parts.len()
        invariant
            i <= parts.len(),
            out@ == join(views(parts@).take(i as int), sep@),
        decreases parts.len() - i,
    {
        assert(views(parts@).take(i + 1).drop_last() =~= views(parts@).take(i as int));
        if i > 0 {
            push_str(&mut out, sep);
        }
        push_str(&mut out, parts[i].as_str());
        i += 1;
    }
    assert(views(parts@).take(parts.len() as int) =~= views(parts@));
    out
}

} // verus!
