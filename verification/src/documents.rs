//! The memory documents of the OpenSearch backend: how a memory becomes a
//! document, and how a document read back becomes a memory again.
use vstd::prelude::*;
use crate::clock::{now_rfc3339, to_utc_rfc3339, utc_rfc3339};
use crate::facts::lemma_filter_step;
use crate::maintain::str_eq;
use crate::model::{Importance, Memory, MemorySource, WEIGHT_ONE, copy_opt, copy_source, copy_strings, source_type, source_type_name};
use crate::normalize::{content_hash, summary_hash};
use crate::text::owned;
use crate::backends::OpenSearchStore;

verus! {

broadcast use vstd::seq_lib::group_seq_properties;

/// The fields of a stored memory document as the backend finds them: each
/// is what the document holds under that name when it has the expected
/// type, `None` otherwise. List entries that are not strings are `None`;
/// the weight is in fixed point (`WEIGHT_ONE` = 1.0); `source` is what the
/// non-empty `source_data` text decodes to, when it does.
pub struct SourceDoc {
    pub created_at: Option<String>,
    pub updated_at: Option<String>,
    pub last_accessed: Option<String>,
    pub access_count: Option<u64>,
    pub weight: Option<u32>,
    pub topic: Option<String>,
    pub summary: Option<String>,
    pub raw_excerpt: Option<String>,
    pub keywords: Option<Vec<Option<String>>>,
    pub importance: Option<String>,
    pub source_type: Option<String>,
    pub source: Option<MemorySource>,
    pub related_ids: Option<Vec<Option<String>>>,
}

/// One hit of a search response: its `_id` and `_source`, when present.
pub struct SearchHit {
    pub id: Option<String>,
    pub source: Option<SourceDoc>,
}

/// The document written for a memory, but for `source_data` (the source
/// encoded as JSON) and the embedding, which the caller adds.
pub struct MemoryDoc {
    pub created_at: String,
    pub updated_at: String,
    pub last_accessed: String,
    pub access_count: u32,
    pub weight: u32,
    pub topic: String,
    pub summary: String,
    pub raw_excerpt: Option<String>,
    pub keywords: Vec<String>,
    pub importance: String,
    pub source_type: String,
    pub related_ids: Vec<String>,
    pub summary_hash: String,
}

/// The name an importance level is stored under.
pub open spec fn importance_name(i: Importance) -> Seq<char> {
    match i {
        Importance::Low => "low"@,
        Importance::Medium => "medium"@,
        Importance::High => "high"@,
        Importance::Critical => "critical"@,
    }
}

/// The level stored under `s`, if any.
pub open spec fn importance_named(s: Seq<char>) -> Option<Importance> {
    if s == "low"@ {
        Some(Importance::Low)
    } else if s == "medium"@ {
        Some(Importance::Medium)
    } else if s == "high"@ {
        Some(Importance::High)
    } else if s == "critical"@ {
        Some(Importance::Critical)
    } else {
        None
    }
}

/// The text of an optional field, empty when missing.
pub open spec fn text_or_empty(o: Option<String>) -> Seq<char> {
    match o {
        Some(s) => s@,
        None => Seq::empty(),
    }
}

/// The text of an optional field when it is there and not empty.
pub open spec fn nonempty_text(o: Option<String>) -> Option<Seq<char>> {
    match o {
        Some(s) => if s@.len() > 0 { Some(s@) } else { None },
        None => None,
    }
}

/// The view of an optional string.
pub open spec fn opt_view(o: Option<String>) -> Option<Seq<char>> {
    match o {
        Some(s) => Some(s@),
        None => None,
    }
}

/// Whether a list entry is a string.
pub open spec fn is_present(o: Option<String>) -> bool {
    o is Some
}

/// The string entries of a list, in order.
pub open spec fn present(s: Seq<Option<String>>) -> Seq<String> {
    s.filter(|o: Option<String>| is_present(o)).map_values(|o: Option<String>| o->0)
}

/// The string entries of an optional list; none when the list is missing.
pub open spec fn present_in(o: Option<Vec<Option<String>>>) -> Seq<String> {
    match o {
        Some(v) => present(v@),
        None => Seq::empty(),
    }
}

/// A time field read back: the stored time rewritten in UTC when it is a
/// valid RFC 3339 timestamp; otherwise the reading time, of which nothing
/// is stated.
pub open spec fn read_time(o: Option<String>, t: String) -> bool {
    match o {
        Some(s) => utc_rfc3339(s@) matches Some(u) ==> t@ == u,
        None => true,
    }
}

/// `m` is the memory read back from document `doc` stored under `id`:
/// missing texts read as empty, a missing count as 0 (a larger count
/// wraps to 32 bits), a missing weight as 1.0, an empty excerpt as none,
/// an unknown importance as medium, and a source that is not `manual` and
/// does not decode as manual.
pub open spec fn read_from(m: Memory, id: Seq<char>, doc: SourceDoc) -> bool {
    &&& m.id@ == id
    &&& read_time(doc.created_at, m.created_at)
    &&& read_time(doc.updated_at, m.updated_at)
    &&& read_time(doc.last_accessed, m.last_accessed)
    &&& m.access_count == match doc.access_count {
        Some(n) => n % 0x1_0000_0000,
        None => 0,
    }
    &&& m.weight == match doc.weight {
        Some(w) => w,
        None => WEIGHT_ONE,
    }
    &&& m.topic@ == text_or_empty(doc.topic)
    &&& m.summary@ == text_or_empty(doc.summary)
    &&& opt_view(m.raw_excerpt) == nonempty_text(doc.raw_excerpt)
    &&& m.keywords@ == present_in(doc.keywords)
    &&& m.importance == match importance_named(text_or_empty(doc.importance)) {
        Some(i) => i,
        None => Importance::Medium,
    }
    &&& m.source == if text_or_empty(doc.source_type) == "manual"@ {
        MemorySource::Manual
    } else {
        match doc.source {
            Some(s) => s,
            None => MemorySource::Manual,
        }
    }
    &&& m.related_ids@ == present_in(doc.related_ids)
}

/// The level stored under `s`, if any.
pub fn parse_importance(s: &str) -> (r: Option<Importance>)
    ensures
        r == importance_named(s@),
{
    if str_eq("low", &owned(s)) {
        Some(Importance::Low)
    } else if str_eq("medium", &owned(s)) {
        Some(Importance::Medium)
    } else if str_eq("high", &owned(s)) {
        Some(Importance::High)
    } else if str_eq("critical", &owned(s)) {
        Some(Importance::Critical)
    } else {
        None
    }
}

/// The text of an optional field, empty when missing.
fn field_text(o: &Option<String>) -> (r: String)
    ensures
        r@ == text_or_empty(*o),
{
    match o {
        Some(s) => s.clone(),
        None => String::new(),
    }
}

/// The text of an optional field when it is there and not empty.
fn field_nonempty(o: &Option<String>) -> (r: Option<String>)
    ensures
        opt_view(r) == nonempty_text(*o),
{
    match o {
        Some(s) => if s.as_str().unicode_len() > 0 { Some(s.clone()) } else { None },
        None => None,
    }
}

/// The string entries of an optional list, in order.
fn field_strings(o: &Option<Vec<Option<String>>>) -> (r: Vec<String>)
    ensures
        r@ == present_in(*o),
{
    let v = match o {
        Some(v) => v,
        None => {
            return Vec::new();
        },
    };
    let ghost p = |o: Option<String>| is_present(o);
    let ghost f = |o: Option<String>| o->0;
    let mut r: Vec<String> = Vec::new();
    let mut i: usize = 0;
    while i < v.len()
        invariant
            i <= v@.len(),
            p == (|o: Option<String>| is_present(o)),
            f == (|o: Option<String>| o->0),
            r@ == v@.take(i as int).filter(p).map_values(f),
        decreases v.len() - i,
    {
        proof {
            lemma_filter_step(v@, i as int, p);
        }
        match &v[i] {
            Some(s) => {
                proof {
                    assert(v@.take(i + 1).filter(p) == v@.take(i as int).filter(p).push(v@[i as int]));
                    assert(v@.take(i + 1).filter(p).map_values(f) =~= v@.take(i as int).filter(p).map_values(f).push(f(v@[i as int])));
                }
                r.push(s.clone());
            },
            None => {},
        }
        i += 1;
    }
    proof {
        assert(v@.take(v@.len() as int) =~= v@);
    }
    r
}

/// A timestamp read back: the stored time rewritten in UTC when it is
/// valid RFC 3339, otherwise the current time (of which nothing is
/// stated).
pub fn parse_dt(s: &str) -> (t: String)
    ensures
        utc_rfc3339(s@) matches Some(u) ==> t@ == u,
{
    match to_utc_rfc3339(s) {
        Some(u) => u,
        None => now_rfc3339(),
    }
}

/// A time field read back: as `parse_dt`, the current time when missing.
fn field_time(o: &Option<String>) -> (t: String)
    ensures
        read_time(*o, t),
{
    match o {
        Some(s) => parse_dt(s.as_str()),
        None => now_rfc3339(),
    }
}

/// Whether a hit has both an id and a document.
pub open spec fn complete(h: SearchHit) -> bool {
    h.id is Some && h.source is Some
}

/// The hits that have both an id and a document, in order.
pub open spec fn complete_hits(hits: Seq<SearchHit>) -> Seq<SearchHit> {
    hits.filter(|h: SearchHit| complete(h))
}

/// The source of a stored memory from its `source_type` and what its
/// `source_data` decoded to: manual for type `manual`, otherwise the
/// decoded source, manual when nothing decoded.
pub fn parse_source(source_type: &str, decoded: &Option<MemorySource>) -> (r: MemorySource)
    ensures
        r == if source_type@ == "manual"@ {
            MemorySource::Manual
        } else {
            match *decoded {
                Some(s) => s,
                None => MemorySource::Manual,
            }
        },
{
    proof {
        reveal_strlit("manual");
    }
    if str_eq("manual", &owned(source_type)) {
        MemorySource::Manual
    } else {
        match decoded {
            Some(s) => copy_source(s),
            None => MemorySource::Manual,
        }
    }
}

/// The stored fields of `memory` as the server backends write them: its
/// fields as they are, the importance and source type by name, and the
/// duplicate-detection hash.
pub fn memory_row(memory: &Memory) -> (d: MemoryDoc)
    ensures
        d.created_at == memory.created_at,
        d.updated_at == memory.updated_at,
        d.last_accessed == memory.last_accessed,
        d.access_count == memory.access_count,
        d.weight == memory.weight,
        d.topic == memory.topic,
        d.summary == memory.summary,
        d.raw_excerpt == memory.raw_excerpt,
        d.keywords@ == memory.keywords@,
        d.importance@ == importance_name(memory.importance),
        d.source_type@ == source_type_name(memory.source),
        d.related_ids@ == memory.related_ids@,
        d.summary_hash@ == content_hash(memory.topic@, memory.summary@),
{
    MemoryDoc {
        created_at: memory.created_at.clone(),
        updated_at: memory.updated_at.clone(),
        last_accessed: memory.last_accessed.clone(),
        access_count: memory.access_count,
        weight: memory.weight,
        topic: memory.topic.clone(),
        summary: memory.summary.clone(),
        raw_excerpt: copy_opt(&memory.raw_excerpt),
        keywords: copy_strings(&memory.keywords),
        importance: owned(memory.importance.as_str()),
        source_type: owned(source_type(&memory.source)),
        related_ids: copy_strings(&memory.related_ids),
        summary_hash: summary_hash(memory.topic.as_str(), memory.summary.as_str()),
    }
}

impl OpenSearchStore {
    /// Read a memory back from its document `doc` stored under `id`.
    pub fn source_to_memory(id: &str, doc: &SourceDoc) -> (m: Memory)
        ensures
            read_from(m, id@, *doc),
    {
        proof {
            reveal_strlit("manual");
        }
        let importance = match parse_importance(field_text(&doc.importance).as_str()) {
            Some(i) => i,
            None => Importance::Medium,
        };
        let st = field_text(&doc.source_type);
        let source = parse_source(st.as_str(), &doc.source);
        let access_count: u32 = match doc.access_count {
            Some(n) => (n % 0x1_0000_0000) as u32,
            None => 0,
        };
        Memory {
            id: owned(id),
            created_at: field_time(&doc.created_at),
            updated_at: field_time(&doc.updated_at),
            last_accessed: field_time(&doc.last_accessed),
            access_count,
            weight: match doc.weight {
                Some(w) => w,
                None => WEIGHT_ONE,
            },
            topic: field_text(&doc.topic),
            summary: field_text(&doc.summary),
            raw_excerpt: field_nonempty(&doc.raw_excerpt),
            keywords: field_strings(&doc.keywords),
            importance,
            source,
            related_ids: field_strings(&doc.related_ids),
        }
    }

    /// The document written for `memory`: its fields as they are, the
    /// importance and source type by name, and the duplicate-detection hash.
    pub fn memory_to_source(memory: &Memory) -> (d: MemoryDoc)
        ensures
            d.created_at == memory.created_at,
            d.updated_at == memory.updated_at,
            d.last_accessed == memory.last_accessed,
            d.access_count == memory.access_count,
            d.weight == memory.weight,
            d.topic == memory.topic,
            d.summary == memory.summary,
            d.raw_excerpt == memory.raw_excerpt,
            d.keywords@ == memory.keywords@,
            d.importance@ == importance_name(memory.importance),
            d.source_type@ == source_type_name(memory.source),
            d.related_ids@ == memory.related_ids@,
            d.summary_hash@ == content_hash(memory.topic@, memory.summary@),
    {
        memory_row(memory)
    }

    /// The memories of a search response: one per hit that has both an id and
    /// a document, in order, read back from it.
    pub fn hits_to_memories(hits: &Vec<SearchHit>) -> (v: Vec<Memory>)
        ensures
            v@.len() == complete_hits(hits@).len(),
            forall|k: int| 0 <= k < v@.len() ==> read_from(#[trigger] v@[k], complete_hits(hits@)[k].id->0@, complete_hits(hits@)[k].source->0),
    {
        let ghost p = |h: SearchHit| complete(h);
        let mut v: Vec<Memory> = Vec::new();
        let mut i: usize = 0;
        while i < hits.len()
            invariant
                i <= hits@.len(),
                p == (|h: SearchHit| complete(h)),
                v@.len() == hits@.take(i as int).filter(p).len(),
                forall|k: int| 0 <= k < v@.len() ==> read_from(#[trigger] v@[k], hits@.take(i as int).filter(p)[k].id->0@, hits@.take(i as int).filter(p)[k].source->0),
            decreases hits.len() - i,
        {
            proof {
                lemma_filter_step(hits@, i as int, p);
            }
            let h = &hits[i];
            match (&h.id, &h.source) {
                (Some(id), Some(doc)) => {
                    let m = OpenSearchStore::source_to_memory(id.as_str(), doc);
                    v.push(m);
                },
                _ => {},
            }
            i += 1;
        }
        proof {
            assert(hits@.take(hits@.len() as int) =~= hits@);
        }
        v
    }
}

/// `doc` is what the server gives back for the document `d`, written with
/// source data that decodes to `source`: every field as written, lists
/// entry for entry.
pub open spec fn stored_doc(d: MemoryDoc, source: Option<MemorySource>, doc: SourceDoc) -> bool {
    &&& doc.created_at == Some(d.created_at)
    &&& doc.updated_at == Some(d.updated_at)
    &&& doc.last_accessed == Some(d.last_accessed)
    &&& doc.access_count == Some(d.access_count as u64)
    &&& doc.weight == Some(d.weight)
    &&& doc.topic == Some(d.topic)
    &&& doc.summary == Some(d.summary)
    &&& doc.raw_excerpt == d.raw_excerpt
    &&& doc.keywords matches Some(v) && v@ == d.keywords@.map_values(|k: String| Some(k))
    &&& doc.importance == Some(d.importance)
    &&& doc.source_type == Some(d.source_type)
    &&& doc.source == source
    &&& doc.related_ids matches Some(v) && v@ == d.related_ids@.map_values(|k: String| Some(k))
}

/// A list written entry for entry reads back as it was.
proof fn lemma_present_all(s: Seq<String>)
    ensures
        present(s.map_values(|k: String| Some(k))) == s,
    decreases s.len(),
{
    let w = s.map_values(|k: String| Some(k));
    reveal(Seq::filter);
    if s.len() > 0 {
        lemma_present_all(s.drop_last());
        assert(w.drop_last() =~= s.drop_last().map_values(|k: String| Some(k)));
        assert(is_present(w.last()));
        let f = w.filter(|o: Option<String>| is_present(o));
        assert(f == w.drop_last().filter(|o: Option<String>| is_present(o)).push(w.last()));
        assert(present(w) =~= present(w.drop_last()).push(s.last()));
        assert(s =~= s.drop_last().push(s.last()));
    } else {
        assert(present(w) =~= s);
    }
}

/// A memory written with `memory_to_source` and read back with
/// `source_to_memory` is the memory written: every field but the id comes
/// back as it was, when its times are already in the UTC form they are
/// read back in, its excerpt is not empty text, and its source decodes
/// back to itself.
pub proof fn law_document_round_trip(m: Memory, d: MemoryDoc, source: Option<MemorySource>, doc: SourceDoc, back: Memory)
    requires
        d.created_at == m.created_at,
        d.updated_at == m.updated_at,
        d.last_accessed == m.last_accessed,
        d.access_count == m.access_count,
        d.weight == m.weight,
        d.topic == m.topic,
        d.summary == m.summary,
        d.raw_excerpt == m.raw_excerpt,
        d.keywords@ == m.keywords@,
        d.importance@ == importance_name(m.importance),
        d.source_type@ == source_type_name(m.source),
        d.related_ids@ == m.related_ids@,
        stored_doc(d, source, doc),
        read_from(back, m.id@, doc),
        utc_rfc3339(m.created_at@) == Some(m.created_at@),
        utc_rfc3339(m.updated_at@) == Some(m.updated_at@),
        utc_rfc3339(m.last_accessed@) == Some(m.last_accessed@),
        !(m.raw_excerpt matches Some(x) && x@.len() == 0),
        !(m.source is Manual) ==> source == Some(m.source),
    ensures
        back.id@ == m.id@,
        back.created_at@ == m.created_at@,
        back.updated_at@ == m.updated_at@,
        back.last_accessed@ == m.last_accessed@,
        back.access_count == m.access_count,
        back.weight == m.weight,
        back.topic@ == m.topic@,
        back.summary@ == m.summary@,
        opt_view(back.raw_excerpt) == opt_view(m.raw_excerpt),
        back.keywords@ == m.keywords@,
        back.importance == m.importance,
        back.source == m.source,
        back.related_ids@ == m.related_ids@,
{
    reveal_strlit("low");
    reveal_strlit("medium");
    reveal_strlit("high");
    reveal_strlit("critical");
    reveal_strlit("manual");
    reveal_strlit("claude_code");
    reveal_strlit("conversation");
    lemma_present_all(m.keywords@);
    lemma_present_all(m.related_ids@);
    assert(d.access_count as u64 % 0x1_0000_0000 == d.access_count);
    assert(text_or_empty(doc.importance) == importance_name(m.importance));
    assert(importance_named(importance_name(m.importance)) == Some(m.importance)) by {
        match m.importance {
            Importance::Low => {},
            Importance::Medium => {
                assert("medium"@[0] != "low"@[0]);
            },
            Importance::High => {
                assert("high"@[0] != "low"@[0] && "high"@[0] != "medium"@[0]);
            },
            Importance::Critical => {
                assert("critical"@[0] != "low"@[0] && "critical"@[0] != "medium"@[0] && "critical"@[0] != "high"@[0]);
            },
        }
    }
    assert(text_or_empty(doc.source_type) == source_type_name(m.source));
    match m.source {
        MemorySource::Manual => {},
        MemorySource::ClaudeCode { .. } => {
            assert("claude_code"@ != "manual"@);
        },
        MemorySource::Conversation { .. } => {
            assert("conversation"@ != "manual"@);
        },
    }
}

} // verus!
