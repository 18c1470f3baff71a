//! The PostgreSQL and OpenSearch backends. Both talk to a server, so what
//! stands here is what they decide and compute on this side of the wire:
//! the patterns and parameters they send, how they read the rows that come
//! back, and the steps of the daily decay claim. The connection itself is
//! held and driven by the caller.
use vstd::prelude::*;
use crate::encode::{escape_like_wildcards, like_escaped};
use crate::search::{KEYWORD_CAP, SEARCH_LIMIT_CAP, capped_keywords, keyword_pattern};
use crate::model::{IcmError, IcmResult, Memory, MemoryView};
use crate::documents::{MemoryDoc, importance_name, memory_row};
use crate::memory::{normalized_from, validate_and_normalize};
use crate::model::source_type_name;
use crate::normalize::{content_hash, trimmed};
use crate::patterns::{MemoryMap, PatternCluster, entry_for, literal_prefix_pattern, unique_ids, with_wildcard};
use crate::text::{concat, owned, string_of};

verus! {

broadcast use vstd::seq_lib::group_seq_properties;

/// Decay factor of the daily automatic decay pass, in thousandths (0.95).
pub const AUTO_DECAY_FACTOR_PERMILLE: u32 = 950;

/// What a backend does next while running its daily decay.
#[derive(Clone, Copy, Debug, PartialEq, Eq, Structural)]
pub enum DecayStep {
    /// Nothing more to do.
    Done,
    /// Atomically claim the `last_decay_at` slot on the server and report
    /// the outcome.
    ClaimSlot,
    /// Run one decay pass with this factor, then stop.
    ApplyDecay { factor_permille: u32 },
}

/// A day, in milliseconds: how long the `last_decay_at` slot stays held.
pub const DAY_MILLIS: i64 = 86_400_000;

/// The OpenSearch rule of the daily decay claim: the slot holding `last`
/// (milliseconds since the epoch, `None` when empty) may be claimed at
/// `now` when it is empty or holds a time at least a day before `now`.
pub open spec fn claim_due(last: Option<i64>, now: i64) -> bool {
    match last {
        None => true,
        Some(v) => now - v >= DAY_MILLIS,
    }
}

/// The PostgreSQL rule of the daily decay claim: the slot may be claimed
/// when it is empty or holds a time more than a day before `now`.
pub open spec fn claim_due_pg(last: Option<i64>, now: i64) -> bool {
    match last {
        None => true,
        Some(v) => now - v > DAY_MILLIS,
    }
}

/// What the slot holds after a claim at `now` that was `due` or not:
/// `now` when it was, else what it held.
pub open spec fn slot_after_claim(last: Option<i64>, now: i64, due: bool) -> Option<i64> {
    if due { Some(now) } else { last }
}

/// Something that turns text into embedding vectors; only its
/// dimensionality is visible here.
pub trait Embedder {
    /// Length of the vectors it produces.
    fn dimensions(&self) -> usize;
}

/// The message of an operation a backend does not offer.
pub open spec fn unsupported_text(what: Seq<char>) -> Seq<char> {
    what + " (use the default SQLite backend)"@
}

/// The error for an operation a backend does not offer.
pub fn unsupported(what: &str) -> (e: IcmError)
    ensures
        e matches IcmError::Unsupported(m) && m@ == unsupported_text(what@),
{
    IcmError::Unsupported(concat(what, " (use the default SQLite backend)"))
}

/// Whether row `j` is the last one of `rows` carrying `id`.
pub open spec fn last_with_id_at(rows: Seq<Memory>, id: Seq<char>, j: int) -> bool {
    &&& 0 <= j < rows.len()
    &&& rows[j].id@ == id
    &&& forall|k: int| j < k < rows.len() ==> (#[trigger] rows[k]).id@ != id
}

/// The last of `rows` carrying `id`, if any: what a map keyed by id holds
/// after inserting every row in order.
pub open spec fn keyed_last(rows: Seq<Memory>, id: Seq<char>) -> Option<MemoryView> {
    if exists|j: int| last_with_id_at(rows, id, j) {
        Some(rows[choose|j: int| last_with_id_at(rows, id, j)]@)
    } else {
        None
    }
}

/// Keying one more row.
proof fn lemma_keyed_last_push(rows: Seq<Memory>, m: Memory, x: Seq<char>)
    ensures
        keyed_last(rows.push(m), x) == if m.id@ == x { Some(m@) } else { keyed_last(rows, x) },
{
    let r2 = rows.push(m);
    let n = rows.len() as int;
    if m.id@ == x {
        assert(last_with_id_at(r2, x, n));
        let c = choose|j: int| last_with_id_at(r2, x, j);
        if c < n {
            assert(r2[n].id@ == x);
        }
    } else {
        if exists|j: int| last_with_id_at(rows, x, j) {
            let j = choose|j: int| last_with_id_at(rows, x, j);
            assert(r2[j] == rows[j]);
            assert forall|k: int| j < k < r2.len() implies (#[trigger] r2[k]).id@ != x by {
                if k < n {
                    assert(r2[k] == rows[k]);
                }
            }
            assert(last_with_id_at(r2, x, j));
            let c = choose|c: int| last_with_id_at(r2, x, c);
            assert(c != n);
            assert(r2[c] == rows[c]);
            if c < j {
                assert(r2[j].id@ == x);
            } else if j < c {
                assert(rows[c].id@ == x);
            }
        } else {
            if exists|c: int| last_with_id_at(r2, x, c) {
                let c = choose|c: int| last_with_id_at(r2, x, c);
                assert(c != n);
                assert(r2[c] == rows[c]);
                assert forall|k: int| c < k < rows.len() implies (#[trigger] rows[k]).id@ != x by {
                    assert(r2[k] == rows[k]);
                }
                assert(last_with_id_at(rows, x, c));
            }
        }
    }
}

/// Replacing or adding one entry of a map with unique ids.
proof fn lemma_entry_for_put(s: Seq<Memory>, t: Seq<Memory>, m: Memory, p: int)
    requires
        unique_ids(s),
        (p == s.len() && t == s.push(m) && forall|i: int| 0 <= i < s.len() ==> (#[trigger] s[i]).id@ != m.id@)
            || (0 <= p < s.len() && s[p].id@ == m.id@ && t == s.update(p, m)),
    ensures
        unique_ids(t),
        forall|x: Seq<char>| #[trigger] entry_for(t, x) == if x == m.id@ { Some(m@) } else { entry_for(s, x) },
{
    assert forall|i: int, j: int| 0 <= i < t.len() && 0 <= j < t.len() && i != j implies (#[trigger] t[i]).id@ != (#[trigger] t[j]).id@ by {
        if i != p && j != p {
            assert(t[i] == s[i] && t[j] == s[j]);
        } else if i == p {
            assert(t[j] == s[j]);
        } else {
            assert(t[i] == s[i]);
        }
    }
    assert forall|x: Seq<char>| #[trigger] entry_for(t, x) == if x == m.id@ { Some(m@) } else { entry_for(s, x) } by {
        if x == m.id@ {
            assert(t[p].id@ == x);
            let c = choose|c: int| 0 <= c < t.len() && (#[trigger] t[c]).id@ == x;
            if c != p {
                assert(t[c].id@ == t[p].id@);
            }
        } else if exists|c: int| 0 <= c < t.len() && (#[trigger] t[c]).id@ == x {
            let c = choose|c: int| 0 <= c < t.len() && (#[trigger] t[c]).id@ == x;
            assert(c != p);
            assert(t[c] == s[c]);
            assert(exists|d: int| 0 <= d < s.len() && (#[trigger] s[d]).id@ == x);
            let d = choose|d: int| 0 <= d < s.len() && (#[trigger] s[d]).id@ == x;
            if d != c {
                assert(s[d].id@ == s[c].id@);
            }
        } else {
            assert forall|d: int| 0 <= d < s.len() implies (#[trigger] s[d]).id@ != x by {
                if d != p {
                    assert(t[d] == s[d]);
                }
            }
        }
    }
}

/// The map keyed by id of `rows`, a later row replacing an earlier one with
/// the same id.
pub fn map_by_id(rows: Vec<Memory>) -> (r: MemoryMap)
    ensures
        unique_ids(r.entries@),
        forall|x: Seq<char>| #[trigger] entry_for(r.entries@, x) == keyed_last(rows@, x),
{
    let mut out = MemoryMap { entries: Vec::new() };
    let mut i: usize = 0;
    while i < rows.len()
        invariant
            i <= rows@.len(),
            unique_ids(out.entries@),
            forall|x: Seq<char>| #[trigger] entry_for(out.entries@, x) == keyed_last(rows@.take(i as int), x),
        decreases rows.len() - i,
    {
        let m = rows[i].copy();
        let ghost before = out.entries@;
        let ghost mm = m;
        proof {
            assert(rows@.take(i + 1) =~= rows@.take(i as int).push(rows@[i as int]));
            assert forall|x: Seq<char>| keyed_last(rows@.take(i + 1), x) == if mm.id@ == x { Some(mm@) } else { keyed_last(rows@.take(i as int), x) } by {
                lemma_keyed_last_push(rows@.take(i as int), rows@[i as int], x);
            }
        }
        let mut p: usize = 0;
        let mut found = false;
        while p < out.entries.len()
            invariant
                p <= out.entries.len(),
                out.entries@ == before,
                mm == m,
                !found ==> forall|q: int| 0 <= q < p ==> (#[trigger] before[q]).id@ != mm.id@,
                found ==> p < before.len() && before[p as int].id@ == mm.id@,
            ensures
                found ==> p < before.len() && before[p as int].id@ == mm.id@,
                !found ==> forall|q: int| 0 <= q < before.len() ==> (#[trigger] before[q]).id@ != mm.id@,
            decreases out.entries.len() - p + if found { 0int } else { 1int },
        {
            if out.entries[p].id == m.id {
                found = true;
                break;
            }
            p += 1;
        }
        if found {
            out.entries.set(p, m);
            proof {
                lemma_entry_for_put(before, out.entries@, mm, p as int);
            }
        } else {
            out.entries.push(m);
            proof {
                lemma_entry_for_put(before, out.entries@, mm, before.len() as int);
            }
        }
        i += 1;
    }
    proof {
        assert(rows@.take(rows@.len() as int) =~= rows@);
    }
    out
}

/// A topic count as the server reports it, clamped at zero.
pub open spec fn clamped_count(n: i64) -> usize {
    if n < 0 { 0 } else { n as usize }
}

/// `(topic, COUNT(*))` rows read back as `(topic, count)` pairs, a negative
/// count (which the server never sends) read as zero.
pub fn topic_counts_from_rows(rows: Vec<(String, i64)>) -> (r: Vec<(String, usize)>)
    requires
        forall|k: int| 0 <= k < rows@.len() ==> #[trigger] rows@[k].1 <= usize::MAX,
    ensures
        r@.len() == rows@.len(),
        forall|k: int| 0 <= k < rows@.len() ==> (#[trigger] r@[k]) == (rows@[k].0, clamped_count(rows@[k].1)),
{
    let mut r: Vec<(String, usize)> = Vec::new();
    let mut i: usize = 0;
    while i < rows.len()
        invariant
            i <= rows@.len(),
            r@.len() == i,
            forall|k: int| 0 <= k < rows@.len() ==> #[trigger] rows@[k].1 <= usize::MAX,
            forall|k: int| 0 <= k < i ==> (#[trigger] r@[k]) == (rows@[k].0, clamped_count(rows@[k].1)),
        decreases rows.len() - i,
    {
        let n = rows[i].1;
        let c: usize = if n < 0 { 0 } else { n as usize };
        r.push((rows[i].0.clone(), c));
        proof {
            assert(r@[i as int].0 == rows@[i as int].0);
        }
        i += 1;
    }
    r
}

/// The PostgreSQL backend, as far as it decides anything locally.
pub struct PostgresStore {
    pub readonly: bool,
}

/// Most hits a hybrid search answers.
pub const HYBRID_LIMIT_CAP: usize = 1000;

impl PostgresStore {
    /// The claim the server runs on the `last_decay_at` slot (its
    /// conditional upsert): answers what the slot then holds and whether
    /// this caller claimed it, and so runs the decay. Due only more than a
    /// day after the last claim.
    pub fn claim_decay_slot(last: Option<i64>, now: i64) -> (r: (Option<i64>, bool))
        ensures
            r.1 == claim_due_pg(last, now),
            r.0 == slot_after_claim(last, now, r.1),
    {
        let due = match last {
            None => true,
            Some(v) => (now as i128) - (v as i128) > DAY_MILLIS as i128,
        };
        if due {
            (Some(now), true)
        } else {
            (last, false)
        }
    }

    /// The sizes of a hybrid search: the number of hits answered (`limit`,
    /// at most `HYBRID_LIMIT_CAP`) and the size of each candidate pool
    /// asked of the server, four times that.
    pub fn hybrid_pool(limit: usize) -> (r: (usize, usize))
        ensures
            r.0 == if limit <= HYBRID_LIMIT_CAP { limit } else { HYBRID_LIMIT_CAP },
            r.1 == 4 * r.0,
    {
        let n = if limit <= HYBRID_LIMIT_CAP { limit } else { HYBRID_LIMIT_CAP };
        (n, 4 * n)
    }

    /// The daily decay: a read-only store does nothing; otherwise the
    /// `last_decay_at` slot is claimed on the server (`claimed` is `None`
    /// before the claim and then the number of rows the claim changed), and
    /// only a successful claim runs a decay pass at 0.95.
    pub fn maybe_auto_decay(&self, claimed: Option<u64>) -> (s: DecayStep)
        ensures
            self.readonly ==> s == DecayStep::Done,
            !self.readonly ==> s == match claimed {
                None => DecayStep::ClaimSlot,
                Some(n) => if n > 0 {
                    DecayStep::ApplyDecay { factor_permille: AUTO_DECAY_FACTOR_PERMILLE }
                } else {
                    DecayStep::Done
                },
            },
    {
        if self.readonly {
            return DecayStep::Done;
        }
        match claimed {
            None => DecayStep::ClaimSlot,
            Some(n) => if n > 0 {
                DecayStep::ApplyDecay { factor_permille: AUTO_DECAY_FACTOR_PERMILLE }
            } else {
                DecayStep::Done
            },
        }
    }

    /// The ids sent to the server for `get_many`, or `None` when there is
    /// nothing to ask for.
    pub fn get_many_ids(ids: &[&str]) -> (r: Option<Vec<String>>)
        ensures
            ids@.len() == 0 ==> r is None,
            ids@.len() > 0 ==> (r matches Some(v) && v@.len() == ids@.len() && forall|k: int| 0 <= k < ids@.len() ==> (#[trigger] v@[k])@ == ids@[k]@),
    {
        if ids.len() == 0 {
            return None;
        }
        let mut v: Vec<String> = Vec::new();
        let mut i: usize = 0;
        while i < ids.len()
            invariant
                i <= ids@.len(),
                v@.len() == i,
                forall|k: int| 0 <= k < i ==> (#[trigger] v@[k])@ == ids@[k]@,
            decreases ids.len() - i,
        {
            v.push(owned(ids[i]));
            i += 1;
        }
        Some(v)
    }

    /// Many memories by id: nothing for no ids, otherwise the rows the
    /// server returned for `id = ANY(ids)` keyed by id.
    pub fn get_many(&self, ids: &[&str], rows: Vec<Memory>) -> (r: IcmResult<MemoryMap>)
        ensures
            r matches Ok(m) && unique_ids(m.entries@) && forall|x: Seq<char>| #[trigger] entry_for(m.entries@, x)
                == if ids@.len() == 0 { None } else { keyed_last(rows@, x) },
    {
        if ids.len() == 0 {
            return Ok(MemoryMap { entries: Vec::new() });
        }
        Ok(map_by_id(rows))
    }

    /// The `LIKE` pattern of a prefix read: the topic with its wildcards
    /// escaped, then `%`, so that only topics starting with it literally
    /// match (heaviest first, at most 500, on the server).
    pub fn get_by_topic_prefix(&self, topic: &str) -> (r: String)
        ensures
            r@ == like_escaped(topic@).push('%'),
    {
        string_of(&literal_prefix_pattern(topic))
    }

    /// The `LIKE` pattern of a topic listing: `prefix%` as given, or no
    /// filter.
    pub fn list_topics_with_prefix(&self, prefix: Option<&str>) -> (r: Option<String>)
        ensures
            match prefix {
                Some(p) => r matches Some(s) && s@ == p@.push('%'),
                None => r is None,
            },
    {
        match prefix {
            Some(p) => Some(string_of(&with_wildcard(p))),
            None => None,
        }
    }

    /// A write on a read-only store is refused, naming the operation.
    pub fn write_guard(&self, op: &str) -> (r: IcmResult<()>)
        ensures
            self.readonly ==> (r matches Err(IcmError::ReadOnly(m)) && m@ == op@),
            !self.readonly ==> r is Ok,
    {
        if self.readonly {
            return Err(IcmError::ReadOnly(owned(op)));
        }
        Ok(())
    }

    /// The memory `store` sends, after the read-only check: validated
    /// (topic and summary not blank) and normalised (fresh id when blank,
    /// topic trimmed).
    pub fn prepare_store(&self, memory: Memory) -> (r: IcmResult<Memory>)
        ensures
            self.readonly ==> (r matches Err(IcmError::ReadOnly(m)) && m@ == "store"@),
            !self.readonly && trimmed(memory.topic@).len() == 0 ==> (r matches Err(IcmError::InvalidInput(m)) && m@ == "topic cannot be empty"@),
            !self.readonly && trimmed(memory.topic@).len() > 0 && trimmed(memory.summary@).len() == 0
                ==> (r matches Err(IcmError::InvalidInput(m)) && m@ == "summary cannot be empty"@),
            !self.readonly && trimmed(memory.topic@).len() > 0 && trimmed(memory.summary@).len() > 0 ==> (r matches Ok(m) && normalized_from(memory@, m@)),
    {
        if self.readonly {
            return Err(IcmError::ReadOnly(owned("store")));
        }
        validate_and_normalize(memory)
    }

    /// The column values `update` writes, after the read-only check: the
    /// memory's fields, its importance and source type by name and its
    /// duplicate-detection hash.
    pub fn update_row(&self, memory: &Memory) -> (r: IcmResult<MemoryDoc>)
        ensures
            self.readonly ==> (r matches Err(IcmError::ReadOnly(m)) && m@ == "update"@),
            !self.readonly ==> (r matches Ok(d) && {
                &&& d.created_at == memory.created_at
                &&& d.updated_at == memory.updated_at
                &&& d.last_accessed == memory.last_accessed
                &&& d.access_count == memory.access_count
                &&& d.weight == memory.weight
                &&& d.topic == memory.topic
                &&& d.summary == memory.summary
                &&& d.raw_excerpt == memory.raw_excerpt
                &&& d.keywords@ == memory.keywords@
                &&& d.importance@ == importance_name(memory.importance)
                &&& d.source_type@ == source_type_name(memory.source)
                &&& d.related_ids@ == memory.related_ids@
                &&& d.summary_hash@ == content_hash(memory.topic@, memory.summary@)
            }),
    {
        if self.readonly {
            return Err(IcmError::ReadOnly(owned("update")));
        }
        Ok(memory_row(memory))
    }

    /// The answer to a write addressed to row `id`, given how many rows it
    /// changed: `NotFound(id)` when none.
    pub fn changed_one(changed: u64, id: &str) -> (r: IcmResult<()>)
        ensures
            changed == 0 ==> (r matches Err(IcmError::NotFound(m)) && m@ == id@),
            changed > 0 ==> r is Ok,
    {
        if changed == 0 {
            return Err(IcmError::NotFound(owned(id)));
        }
        Ok(())
    }

    /// What a keyword search sends to the server: nothing for no keywords;
    /// otherwise one `ILIKE` pattern per keyword among the first
    /// `KEYWORD_CAP` (its wildcards escaped, between `%`s), and the limit
    /// capped at `SEARCH_LIMIT_CAP`.
    pub fn keyword_search_plan(keywords: &[&str], limit: usize) -> (r: Option<(Vec<String>, usize)>)
        ensures
            keywords@.len() == 0 ==> r is None,
            keywords@.len() > 0 ==> (r matches Some(plan) && {
                &&& plan.0@.len() == capped_keywords(keywords@).len()
                &&& forall|k: int| 0 <= k < plan.0@.len() ==> (#[trigger] plan.0@[k])@ == keyword_pattern(capped_keywords(keywords@)[k])
                &&& plan.1 == if limit <= SEARCH_LIMIT_CAP { limit } else { SEARCH_LIMIT_CAP }
            }),
    {
        if keywords.len() == 0 {
            return None;
        }
        let n = if keywords.len() <= KEYWORD_CAP { keywords.len() } else { KEYWORD_CAP };
        let mut pats: Vec<String> = Vec::new();
        let mut i: usize = 0;
        while i < n
            invariant
                i <= n,
                n == capped_keywords(keywords@).len(),
                n <= keywords@.len(),
                pats@.len() == i,
                forall|k: int| 0 <= k < i ==> (#[trigger] pats@[k])@ == keyword_pattern(capped_keywords(keywords@)[k]),
            decreases n - i,
        {
            let mut p = concat("%", escape_like_wildcards(keywords[i]).as_str());
            crate::text::push_str(&mut p, "%");
            proof {
                reveal_strlit("%");
                assert(p@ =~= keyword_pattern(capped_keywords(keywords@)[i as int]));
            }
            pats.push(p);
            i += 1;
        }
        Some((pats, if limit <= SEARCH_LIMIT_CAP { limit } else { SEARCH_LIMIT_CAP }))
    }

    /// Automatic consolidation is not offered here: never consolidates.
    pub fn auto_consolidate(&self, topic: &str, threshold: usize) -> (r: IcmResult<bool>)
        ensures
            r == Ok::<bool, IcmError>(false),
    {
        Ok(false)
    }

    /// As `auto_consolidate`: never consolidates.
    pub fn auto_consolidate_with_embedder(&self, topic: &str, threshold: usize, embedder: Option<&dyn Embedder>) -> (r: IcmResult<bool>)
        ensures
            r == Ok::<bool, IcmError>(false),
    {
        Ok(false)
    }

    /// Pattern mining is not offered by this backend.
    pub fn detect_patterns(&self, topic: &str, min_cluster_size: usize) -> (r: IcmResult<Vec<PatternCluster>>)
        ensures
            r matches Err(IcmError::Unsupported(m)) && m@ == unsupported_text("detect_patterns"@),
    {
        Err(unsupported("detect_patterns"))
    }

    /// Pattern mining is not offered by this backend.
    pub fn extract_pattern_as_concept(&self, cluster: &PatternCluster, memoir_id: &str) -> (r: IcmResult<String>)
        ensures
            r matches Err(IcmError::Unsupported(m)) && m@ == unsupported_text("extract_pattern_as_concept"@),
    {
        Err(unsupported("extract_pattern_as_concept"))
    }
}

/// The OpenSearch backend, as far as it decides anything locally.
pub struct OpenSearchStore {
    pub readonly: bool,
}

impl OpenSearchStore {
    /// The claim the server runs on the `last_decay_at` document (its
    /// update script): answers what the slot then holds and whether this
    /// caller claimed it, and so runs the decay. Due a day or more after
    /// the last claim.
    pub fn claim_decay_slot(last: Option<i64>, now: i64) -> (r: (Option<i64>, bool))
        ensures
            r.1 == claim_due(last, now),
            r.0 == slot_after_claim(last, now, r.1),
    {
        let due = match last {
            None => true,
            Some(v) => (now as i128) - (v as i128) >= DAY_MILLIS as i128,
        };
        if due {
            (Some(now), true)
        } else {
            (last, false)
        }
    }

    /// The daily decay: a read-only store does nothing; otherwise the
    /// `last_decay_at` document is claimed by a scripted upsert (`changed`
    /// is `None` before the claim and then the `changed` flag of the
    /// returned document, if it has one), and only a claim that reports
    /// `changed: true` runs a decay pass at 0.95.
    pub fn maybe_auto_decay(&self, changed: Option<Option<bool>>) -> (s: DecayStep)
        ensures
            self.readonly ==> s == DecayStep::Done,
            !self.readonly ==> s == match changed {
                None => DecayStep::ClaimSlot,
                Some(flag) => if flag == Some(true) {
                    DecayStep::ApplyDecay { factor_permille: AUTO_DECAY_FACTOR_PERMILLE }
                } else {
                    DecayStep::Done
                },
            },
    {
        if self.readonly {
            return DecayStep::Done;
        }
        match changed {
            None => DecayStep::ClaimSlot,
            Some(flag) => {
                let c = match flag {
                    Some(b) => b,
                    None => false,
                };
                if c {
                    DecayStep::ApplyDecay { factor_permille: AUTO_DECAY_FACTOR_PERMILLE }
                } else {
                    DecayStep::Done
                }
            },
        }
    }

    /// Automatic consolidation is not offered here: never consolidates.
    pub fn auto_consolidate(&self, topic: &str, threshold: usize) -> (r: IcmResult<bool>)
        ensures
            r == Ok::<bool, IcmError>(false),
    {
        Ok(false)
    }

    /// As `auto_consolidate`: never consolidates.
    pub fn auto_consolidate_with_embedder(&self, topic: &str, threshold: usize, embedder: Option<&dyn Embedder>) -> (r: IcmResult<bool>)
        ensures
            r == Ok::<bool, IcmError>(false),
    {
        Ok(false)
    }
}

} // verus!
