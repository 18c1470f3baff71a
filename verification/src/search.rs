//! Text searches over the memories table: by keyword (`LIKE` on topic,
//! summary and keywords) and full-text (every query term among the terms of
//! a memory's topic and summary), both heaviest first.
use vstd::prelude::*;
use crate::encode::{alnum_runs, alnum_tokens, capped_tokens, escape_like_wildcards, fts_terms, is_char_boundary_truncation, like_escape_char, like_escaped, views, FTS_MAX_QUERY_BYTES};
use crate::like::{like_char_eq, like_match, like_matches};
use crate::memory::{MemoryTable, lemma_increasing_no_dup, min_nat, rank_by_weight, rows_at, top_by_weight};
use crate::model::Memory;
use crate::patterns::rows_listed;
use crate::text::{chars_of, lowercase, string_of, to_lowercase};

verus! {

broadcast use vstd::seq_lib::group_seq_properties;

/// Most results a search returns, whatever limit is asked for.
pub const SEARCH_LIMIT_CAP: usize = 100;

/// Most keywords a keyword search looks at.
pub const KEYWORD_CAP: usize = 50;

/// `sel` lists, ascending, exactly the indices of the rows satisfying `f`.
pub open spec fn selected_by(t: Seq<Memory>, f: spec_fn(Memory) -> bool, sel: Seq<usize>) -> bool {
    &&& forall|k: int| 0 <= k < sel.len() ==> #[trigger] sel[k] < t.len() && f(t[sel[k] as int])
    &&& forall|j: int| 0 <= j < t.len() && f(t[j]) ==> sel.contains(j as usize)
    &&& forall|a: int, b: int| 0 <= a < b < sel.len() ==> #[trigger] sel[a] < #[trigger] sel[b]
}

/// `v` is the `limit` heaviest rows satisfying `f`, heaviest first.
pub open spec fn heaviest_where(t: Seq<Memory>, f: spec_fn(Memory) -> bool, limit: nat, v: Seq<Memory>) -> bool {
    exists|sel: Seq<usize>, out: Seq<usize>| {
        &&& selected_by(t, f, sel)
        &&& top_by_weight(t, sel, limit, out)
        &&& rows_listed(t, out, v)
    }
}

/// The `LIKE` pattern of one keyword: its wildcards escaped, between `%`s.
pub open spec fn keyword_pattern(k: Seq<char>) -> Seq<char> {
    seq!['%'] + like_escaped(k) + seq!['%']
}

/// Whether a pattern matches the topic, the summary or one of the keywords
/// of a memory (ASCII case ignored).
pub open spec fn pattern_hits(p: Seq<char>, m: Memory) -> bool {
    ||| like_match(p, m.topic@, true, true)
    ||| like_match(p, m.summary@, true, true)
    ||| exists|j: int| 0 <= j < m.keywords@.len() && like_match(p, (#[trigger] m.keywords@[j])@, true, true)
}

/// Whether one of the keywords occurs, literally and ignoring ASCII case,
/// in the topic, the summary or a keyword of a memory.
pub open spec fn keyword_hit(kws: Seq<Seq<char>>) -> spec_fn(Memory) -> bool {
    |m: Memory| exists|q: int| 0 <= q < kws.len() && pattern_hits(keyword_pattern(#[trigger] kws[q]), m)
}

/// The texts of at most the first `KEYWORD_CAP` keywords.
pub open spec fn capped_keywords(kws: Seq<&str>) -> Seq<Seq<char>> {
    let n = if kws.len() <= KEYWORD_CAP { kws.len() as int } else { KEYWORD_CAP as int };
    Seq::new(n as nat, |i: int| kws[i]@)
}

/// Each sequence lower-cased.
pub open spec fn lower_all(ts: Seq<Seq<char>>) -> Seq<Seq<char>> {
    Seq::new(ts.len(), |i: int| lowercase(ts[i]))
}

/// The lower-cased terms of a memory's topic and summary.
pub open spec fn memory_terms(m: Memory) -> Seq<Seq<char>> {
    lower_all(alnum_runs(m.topic@) + alnum_runs(m.summary@))
}

/// Whether every (lower-cased) query term is a term of the memory.
pub open spec fn fts_hit(terms: Seq<Seq<char>>) -> spec_fn(Memory) -> bool {
    |m: Memory| forall|q: int| 0 <= q < terms.len() ==> memory_terms(m).contains(#[trigger] terms[q])
}

/// The lower-cased search terms of a query, given the length `k` of the
/// prefix that fits the byte cap.
pub open spec fn query_terms(query: Seq<char>, k: int) -> Seq<Seq<char>> {
    lower_all(capped_tokens(alnum_runs(query.take(k))))
}

/// The lower-cased copies of character sequences, as strings.
fn lower_strings(v: &Vec<Vec<char>>) -> (r: Vec<String>)
    ensures
        r@.len() == v@.len(),
        forall|i: int| 0 <= i < v@.len() ==> (#[trigger] r@[i])@ == lowercase(v@[i]@),
{
    let mut r: Vec<String> = Vec::new();
    let mut i: usize = 0;
    while i < v.len()
        invariant
            i <= v@.len(),
            r@.len() == i,
            forall|j: int| 0 <= j < i ==> (#[trigger] r@[j])@ == lowercase(v@[j]@),
        decreases v.len() - i,
    {
        let s = string_of(&v[i]);
        r.push(to_lowercase(s.as_str()));
        i += 1;
    }
    r
}

/// The string views of a vector of strings.
pub open spec fn string_views(v: Seq<String>) -> Seq<Seq<char>> {
    Seq::new(v.len(), |i: int| v[i]@)
}

/// Whether `x` is among `v`.
fn contains_string(v: &Vec<String>, x: &String) -> (b: bool)
    ensures
        b == string_views(v@).contains(x@),
{
    let mut i: usize = 0;
    while i < v.len()
        invariant
            i <= v@.len(),
            forall|j: int| 0 <= j < i ==> (#[trigger] v@[j])@ != x@,
        decreases v.len() - i,
    {
        if v[i] == *x {
            proof {
                assert(string_views(v@)[i as int] == x@);
            }
            return true;
        }
        i += 1;
    }
    proof {
        if string_views(v@).contains(x@) {
            let j = choose|j: int| 0 <= j < string_views(v@).len() && string_views(v@)[j] == x@;
            assert(v@[j]@ == x@);
        }
    }
    false
}

/// The lower-cased terms of a memory, as strings.
fn terms_of(m: &Memory) -> (r: Vec<String>)
    ensures
        string_views(r@) == memory_terms(*m),
{
    let mut all = alnum_tokens(&chars_of(m.topic.as_str()));
    let mut rest = alnum_tokens(&chars_of(m.summary.as_str()));
    let ghost a = views(all@);
    let ghost b = views(rest@);
    all.append(&mut rest);
    let r = lower_strings(&all);
    proof {
        assert(views(all@) =~= a + b);
        assert(string_views(r@) =~= memory_terms(*m));
    }
    r
}

/// Whether every term is among the terms of `m`.
fn fts_hit_exec(terms: &Vec<String>, m: &Memory) -> (b: bool)
    ensures
        b == fts_hit(string_views(terms@))(*m),
{
    let mt = terms_of(m);
    let mut q: usize = 0;
    while q < terms.len()
        invariant
            q <= terms@.len(),
            string_views(mt@) == memory_terms(*m),
            forall|z: int| 0 <= z < q ==> memory_terms(*m).contains(#[trigger] string_views(terms@)[z]),
        decreases terms.len() - q,
    {
        if !contains_string(&mt, &terms[q]) {
            proof {
                assert(!memory_terms(*m).contains(string_views(terms@)[q as int]));
            }
            return false;
        }
        q += 1;
    }
    true
}

/// Whether `p` matches the topic, the summary or one keyword of `m`.
fn pattern_hits_exec(p: &Vec<char>, m: &Memory) -> (b: bool)
    ensures
        b == pattern_hits(p@, *m),
{
    if like_matches(p, &chars_of(m.topic.as_str()), true, true) {
        return true;
    }
    if like_matches(p, &chars_of(m.summary.as_str()), true, true) {
        return true;
    }
    let mut j: usize = 0;
    while j < m.keywords.len()
        invariant
            j <= m.keywords@.len(),
            forall|z: int| 0 <= z < j ==> !like_match(p@, (#[trigger] m.keywords@[z])@, true, true),
        decreases m.keywords.len() - j,
    {
        if like_matches(p, &chars_of(m.keywords[j].as_str()), true, true) {
            return true;
        }
        j += 1;
    }
    false
}

/// Whether one of the keyword patterns hits `m`.
fn keyword_hit_exec(pats: &Vec<Vec<char>>, kws: Ghost<Seq<Seq<char>>>, m: &Memory) -> (b: bool)
    requires
        pats@.len() == kws@.len(),
        forall|q: int| 0 <= q < pats@.len() ==> (#[trigger] pats@[q])@ == keyword_pattern(kws@[q]),
    ensures
        b == keyword_hit(kws@)(*m),
{
    let mut q: usize = 0;
    while q < pats.len()
        invariant
            q <= pats@.len() == kws@.len(),
            forall|z: int| 0 <= z < pats@.len() ==> (#[trigger] pats@[z])@ == keyword_pattern(kws@[z]),
            forall|z: int| 0 <= z < q ==> !pattern_hits(keyword_pattern(#[trigger] kws@[z]), *m),
        decreases pats.len() - q,
    {
        if pattern_hits_exec(&pats[q], m) {
            return true;
        }
        q += 1;
    }
    false
}

impl MemoryTable {
    /// The up-to-`limit` (at most 100) heaviest rows in which one of the
    /// first 50 keywords occurs literally (ASCII case ignored) in the
    /// topic, the summary or a keyword. No keywords give no rows.
    pub fn search_by_keywords(&self, keywords: &[&str], limit: usize) -> (v: Vec<Memory>)
        ensures
            keywords@.len() == 0 ==> v@.len() == 0,
            keywords@.len() > 0 ==> heaviest_where(
                self.rows@,
                keyword_hit(capped_keywords(keywords@)),
                min_nat(limit as nat, SEARCH_LIMIT_CAP as nat),
                v@,
            ),
    {
        if keywords.len() == 0 {
            return Vec::new();
        }
        let n = if keywords.len() <= KEYWORD_CAP { keywords.len() } else { KEYWORD_CAP };
        let ghost kws = capped_keywords(keywords@);
        let mut pats: Vec<Vec<char>> = Vec::new();
        let mut i: usize = 0;
        while i < n
            invariant
                i <= n <= keywords@.len(),
                n == if keywords@.len() <= KEYWORD_CAP { keywords@.len() } else { KEYWORD_CAP as nat },
                kws == capped_keywords(keywords@),
                pats@.len() == i,
                forall|q: int| 0 <= q < i ==> (#[trigger] pats@[q])@ == keyword_pattern(kws[q]),
            decreases n - i,
        {
            let e = escape_like_wildcards(keywords[i]);
            let mut p: Vec<char> = Vec::new();
            p.push('%');
            let mut ec = chars_of(e.as_str());
            p.append(&mut ec);
            p.push('%');
            proof {
                assert(p@ =~= keyword_pattern(kws[i as int]));
            }
            pats.push(p);
            i += 1;
        }
        let ghost f = keyword_hit(kws);
        let mut sel: Vec<usize> = Vec::new();
        let mut r: usize = 0;
        while r < self.rows.len()
            invariant
                r <= self.rows.len(),
                pats@.len() == kws.len(),
                forall|q: int| 0 <= q < pats@.len() ==> (#[trigger] pats@[q])@ == keyword_pattern(kws[q]),
                f == keyword_hit(kws),
                forall|k: int| 0 <= k < sel@.len() ==> #[trigger] sel@[k] < r && f(self.rows@[sel@[k] as int]),
                forall|j: int| 0 <= j < r && f(self.rows@[j]) ==> sel@.contains(j as usize),
                forall|a: int, b: int| 0 <= a < b < sel@.len() ==> #[trigger] sel@[a] < #[trigger] sel@[b],
            decreases self.rows.len() - r,
        {
            if keyword_hit_exec(&pats, Ghost(kws), &self.rows[r]) {
                let ghost before = sel@;
                sel.push(r);
                proof {
                    assert forall|j: int| 0 <= j < r + 1 && f(self.rows@[j]) implies sel@.contains(j as usize) by {
                        if j < r {
                            let q = choose|q: int| 0 <= q < before.len() && before[q] == j as usize;
                            assert(sel@[q] == j as usize);
                        } else {
                            assert(sel@[before.len() as int] == r);
                        }
                    }
                }
            }
            r += 1;
        }
        proof {
            lemma_increasing_no_dup(sel@);
        }
        let cap = if limit < SEARCH_LIMIT_CAP { limit } else { SEARCH_LIMIT_CAP };
        let out = rank_by_weight(&self.rows, &sel, cap);
        rows_at(&self.rows, &out)
    }

    /// Full-text search: the up-to-`limit` (at most 100) heaviest rows of
    /// which every term of the query (as `sanitize_fts_query` reads it)
    /// is, once lower-cased, a term of the topic or the summary. A query
    /// with no term gives no rows.
    pub fn search_fts(&self, query: &str, limit: usize) -> (v: Vec<Memory>)
        ensures
            exists|k: int| {
                &&& is_char_boundary_truncation(query@, FTS_MAX_QUERY_BYTES as nat, k)
                &&& query_terms(query@, k).len() == 0 ==> v@.len() == 0
                &&& query_terms(query@, k).len() > 0 ==> heaviest_where(
                    self.rows@,
                    fts_hit(query_terms(query@, k)),
                    min_nat(limit as nat, SEARCH_LIMIT_CAP as nat),
                    v@,
                )
            },
    {
        let raw = fts_terms(query);
        let terms = lower_strings(&raw);
        let ghost k = choose|k: int| is_char_boundary_truncation(query@, FTS_MAX_QUERY_BYTES as nat, k) && views(raw@)
            == capped_tokens(alnum_runs(query@.take(k)));
        proof {
            assert(string_views(terms@) =~= query_terms(query@, k));
        }
        if terms.len() == 0 {
            return Vec::new();
        }
        let ghost f = fts_hit(string_views(terms@));
        let mut sel: Vec<usize> = Vec::new();
        let mut r: usize = 0;
        while r < self.rows.len()
            invariant
                r <= self.rows.len(),
                f == fts_hit(string_views(terms@)),
                forall|k: int| 0 <= k < sel@.len() ==> #[trigger] sel@[k] < r && f(self.rows@[sel@[k] as int]),
                forall|j: int| 0 <= j < r && f(self.rows@[j]) ==> sel@.contains(j as usize),
                forall|a: int, b: int| 0 <= a < b < sel@.len() ==> #[trigger] sel@[a] < #[trigger] sel@[b],
            decreases self.rows.len() - r,
        {
            if fts_hit_exec(&terms, &self.rows[r]) {
                let ghost before = sel@;
                sel.push(r);
                proof {
                    assert forall|j: int| 0 <= j < r + 1 && f(self.rows@[j]) implies sel@.contains(j as usize) by {
                        if j < r {
                            let q = choose|q: int| 0 <= q < before.len() && before[q] == j as usize;
                            assert(sel@[q] == j as usize);
                        } else {
                            assert(sel@[before.len() as int] == r);
                        }
                    }
                }
            }
            r += 1;
        }
        proof {
            lemma_increasing_no_dup(sel@);
        }
        let cap = if limit < SEARCH_LIMIT_CAP { limit } else { SEARCH_LIMIT_CAP };
        let out = rank_by_weight(&self.rows, &sel, cap);
        let v = rows_at(&self.rows, &out);
        proof {
            assert(heaviest_where(self.rows@, fts_hit(query_terms(query@, k)), min_nat(limit as nat, SEARCH_LIMIT_CAP as nat), v@)) by {
                assert(selected_by(self.rows@, f, sel@));
            }
        }
        v
    }
}

/// Whether `c` is one of the characters `LIKE` escaping protects.
pub open spec fn like_special(c: char) -> bool {
    c == '\\' || c == '%' || c == '_'
}

/// `u` is the text `k` as an escaped `LIKE` pattern matches it: character
/// by character, the protected characters exactly and the others as `LIKE`
/// compares them.
pub open spec fn literally(k: Seq<char>, u: Seq<char>, ci: bool) -> bool {
    &&& u.len() == k.len()
    &&& forall|j: int| 0 <= j < k.len() ==> if like_special(#[trigger] k[j]) { u[j] == k[j] } else { like_char_eq(k[j], u[j], ci) }
}

/// Escaping, read from the front.
proof fn lemma_escaped_front(k: Seq<char>)
    requires
        k.len() > 0,
    ensures
        like_escaped(k) == like_escape_char(k[0]) + like_escaped(k.drop_first()),
    decreases k.len(),
{
    if k.len() == 1 {
        assert(k.drop_last() =~= Seq::<char>::empty());
        assert(k.drop_first() =~= Seq::<char>::empty());
        assert(like_escaped(k) =~= like_escape_char(k[0]) + like_escaped(k.drop_first()));
    } else {
        lemma_escaped_front(k.drop_last());
        assert(k.drop_last().drop_first() =~= k.drop_first().drop_last());
        assert(k.drop_first().last() == k.last());
        assert(like_escaped(k) =~= like_escape_char(k[0]) + like_escaped(k.drop_first()));
    }
}

/// An escaped text followed by more pattern matches exactly the texts that
/// start with the text, taken literally, and go on as the rest of the
/// pattern says.
proof fn lemma_escaped_prefix(k: Seq<char>, rest: Seq<char>, t: Seq<char>, ci: bool)
    ensures
        like_match(like_escaped(k) + rest, t, ci, true) <==> (t.len() >= k.len() && literally(k, t.take(k.len() as int), ci)
            && like_match(rest, t.skip(k.len() as int), ci, true)),
    decreases k.len(),
{
    if k.len() == 0 {
        assert(like_escaped(k) + rest =~= rest);
        assert(t.skip(0) =~= t);
        assert(literally(k, t.take(0), ci));
    } else {
        lemma_escaped_front(k);
        let c = k[0];
        let k2 = k.drop_first();
        let p = like_escaped(k) + rest;
        let p2 = like_escaped(k2) + rest;
        lemma_escaped_prefix(k2, rest, t.drop_first(), ci);
        if like_special(c) {
            assert(p =~= seq!['\\', c] + p2);
            assert(p[0] == '\\' && p[1] == c);
            assert(p.skip(2) =~= p2);
        } else {
            assert(p =~= seq![c] + p2);
            assert(p[0] == c);
            assert(p.drop_first() =~= p2);
        }
        if t.len() > 0 {
            let u = t.take(k.len() as int);
            let u2 = t.drop_first().take(k2.len() as int);
            if t.len() >= k.len() {
                assert(t.drop_first().skip(k2.len() as int) =~= t.skip(k.len() as int));
                assert(u2 =~= u.drop_first());
                assert(literally(k, u, ci) <==> ((if like_special(c) { u[0] == c } else { like_char_eq(c, u[0], ci) }) && literally(k2, u2, ci))) by {
                    if literally(k, u, ci) {
                        assert forall|j: int| 0 <= j < k2.len() implies (if like_special(#[trigger] k2[j]) { u2[j] == k2[j] } else { like_char_eq(k2[j], u2[j], ci) }) by {
                            assert(k2[j] == k[j + 1] && u2[j] == u[j + 1]);
                        }
                        assert(k[0] == c);
                    }
                    if (if like_special(c) { u[0] == c } else { like_char_eq(c, u[0], ci) }) && literally(k2, u2, ci) {
                        assert forall|j: int| 0 <= j < k.len() implies (if like_special(#[trigger] k[j]) { u[j] == k[j] } else { like_char_eq(k[j], u[j], ci) }) by {
                            if j > 0 {
                                assert(k[j] == k2[j - 1] && u[j] == u2[j - 1]);
                            }
                        }
                    }
                }
                assert(u[0] == t[0]);
            }
        }
    }
}

/// A leading `%` matches any run of characters.
proof fn lemma_percent_front(q: Seq<char>, t: Seq<char>, ci: bool)
    ensures
        like_match(seq!['%'] + q, t, ci, true) <==> exists|i: int| 0 <= i <= t.len() && #[trigger] like_match(q, t.skip(i), ci, true),
    decreases t.len(),
{
    let p = seq!['%'] + q;
    assert(p[0] == '%');
    assert(p.len() > 0);
    assert(p.drop_first() =~= q);
    assert(t.skip(0) =~= t);
    assert(like_match(p, t, ci, true) == (like_match(q, t, ci, true) || (t.len() > 0 && like_match(p, t.drop_first(), ci, true))));
    assert(like_match(q, t.skip(0), ci, true) == like_match(q, t, ci, true));
    if t.len() > 0 {
        lemma_percent_front(q, t.drop_first(), ci);
        if like_match(p, t.drop_first(), ci, true) {
            let i = choose|i: int| 0 <= i <= t.drop_first().len() && #[trigger] like_match(q, t.drop_first().skip(i), ci, true);
            assert(t.drop_first().skip(i) =~= t.skip(i + 1));
        }
        if exists|i: int| 0 <= i <= t.len() && #[trigger] like_match(q, t.skip(i), ci, true) {
            let i = choose|i: int| 0 <= i <= t.len() && #[trigger] like_match(q, t.skip(i), ci, true);
            if i > 0 {
                assert(t.drop_first().skip(i - 1) =~= t.skip(i));
            }
        }
    }
}

/// A lone `%` matches every text.
proof fn lemma_percent_all(t: Seq<char>, ci: bool)
    ensures
        like_match(seq!['%'], t, ci, true),
    decreases t.len(),
{
    let p = seq!['%'];
    assert(p[0] == '%');
    assert(p.len() == 1);
    assert(p.drop_first() =~= Seq::<char>::empty());
    assert(like_match(p, t, ci, true) == (like_match(p.drop_first(), t, ci, true) || (t.len() > 0 && like_match(p, t.drop_first(), ci, true))));
    if t.len() > 0 {
        lemma_percent_all(t.drop_first(), ci);
    }
}

/// A keyword matches literally: its `LIKE` pattern (wildcards escaped,
/// between `%`s) matches a text exactly when the keyword occurs in it,
/// wildcard characters standing for themselves.
pub proof fn law_keyword_matches_literally(k: Seq<char>, t: Seq<char>, ci: bool)
    ensures
        like_match(keyword_pattern(k), t, ci, true) <==> exists|i: int| 0 <= i && i + k.len() <= t.len() && #[trigger] literally(k, t.subrange(i, i + k.len()), ci),
{
    let q = like_escaped(k) + seq!['%'];
    assert(keyword_pattern(k) =~= seq!['%'] + q);
    lemma_percent_front(q, t, ci);
    if like_match(keyword_pattern(k), t, ci, true) {
        let i = choose|i: int| 0 <= i <= t.len() && #[trigger] like_match(q, t.skip(i), ci, true);
        lemma_escaped_prefix(k, seq!['%'], t.skip(i), ci);
        assert(t.skip(i).take(k.len() as int) =~= t.subrange(i, i + k.len()));
    }
    if exists|i: int| 0 <= i && i + k.len() <= t.len() && #[trigger] literally(k, t.subrange(i, i + k.len()), ci) {
        let i = choose|i: int| 0 <= i && i + k.len() <= t.len() && #[trigger] literally(k, t.subrange(i, i + k.len()), ci);
        lemma_escaped_prefix(k, seq!['%'], t.skip(i), ci);
        assert(t.skip(i).take(k.len() as int) =~= t.subrange(i, i + k.len()));
        lemma_percent_all(t.skip(i).skip(k.len() as int), ci);
        assert(like_match(q, t.skip(i), ci, true));
    }
}

/// A character's code with ASCII upper-case letters lowered.
pub open spec fn ascii_lowered(c: char) -> u32 {
    if 65 <= (c as u32) <= 90 { ((c as u32) + 32) as u32 } else { c as u32 }
}

/// `t` holds `k` at position `i`, ASCII case ignored.
pub open spec fn holds_at_ignoring_case(t: Seq<char>, k: Seq<char>, i: int) -> bool {
    &&& 0 <= i
    &&& i + k.len() <= t.len()
    &&& forall|m: int| 0 <= m < k.len() ==> ascii_lowered(#[trigger] k[m]) == ascii_lowered(t[i + m])
}

/// Text holding a keyword, ASCII case ignored, is matched by the keyword's
/// pattern.
proof fn lemma_held_keyword_matches(k: Seq<char>, t: Seq<char>, i: int)
    requires
        holds_at_ignoring_case(t, k, i),
    ensures
        like_match(keyword_pattern(k), t, true, true),
{
    let u = t.subrange(i, i + k.len());
    assert forall|m: int| 0 <= m < k.len() implies if like_special(#[trigger] k[m]) { u[m] == k[m] } else { like_char_eq(k[m], u[m], true) } by {
        assert(u[m] == t[i + m]);
        assert(ascii_lowered(k[m]) == ascii_lowered(t[i + m]));
        if like_special(k[m]) {
            assert((u[m] as u32) == (k[m] as u32));
            vstd::utf8::char_u32_cast(u[m], u[m] as u32);
            vstd::utf8::char_u32_cast(k[m], k[m] as u32);
        }
    }
    assert(literally(k, u, true));
    law_keyword_matches_literally(k, t, true);
}

/// A keyword search sees every field: a memory whose topic, summary or one
/// of whose keywords holds one of the (first fifty) keywords, ASCII case
/// ignored, is among the candidates the search picks its answer from.
pub proof fn law_keyword_search_sees_every_field(t: Seq<Memory>, keywords: Seq<&str>, q: int, j: int, i: int, sel: Seq<usize>)
    requires
        0 <= q < capped_keywords(keywords).len(),
        0 <= j < t.len(),
        holds_at_ignoring_case(t[j].topic@, capped_keywords(keywords)[q], i)
            || holds_at_ignoring_case(t[j].summary@, capped_keywords(keywords)[q], i)
            || exists|w: int| 0 <= w < t[j].keywords@.len() && holds_at_ignoring_case((#[trigger] t[j].keywords@[w])@, capped_keywords(keywords)[q], i),
        selected_by(t, keyword_hit(capped_keywords(keywords)), sel),
    ensures
        sel.contains(j as usize),
{
    let kws = capped_keywords(keywords);
    let k = kws[q];
    let m = t[j];
    if holds_at_ignoring_case(m.topic@, k, i) {
        lemma_held_keyword_matches(k, m.topic@, i);
    } else if holds_at_ignoring_case(m.summary@, k, i) {
        lemma_held_keyword_matches(k, m.summary@, i);
    } else {
        let w = choose|w: int| 0 <= w < m.keywords@.len() && holds_at_ignoring_case((#[trigger] m.keywords@[w])@, k, i);
        lemma_held_keyword_matches(k, m.keywords@[w]@, i);
    }
    assert(pattern_hits(keyword_pattern(kws[q]), m));
    assert(keyword_hit(kws)(m));
}

} // verus!
