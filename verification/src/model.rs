//! The records the store keeps and hands out, and its error type.
use vstd::prelude::*;
use crate::clock::{new_ulid, now_rfc3339};
use crate::text::{concat, owned};

verus! {

/// How important a memory is; `Critical` memories never decay.
#[derive(Clone, Copy, Debug, PartialEq, Eq, Structural)]
pub enum Importance {
    Low,
    Medium,
    High,
    Critical,
}

/// Rank of an importance level, `Low` = 0 up to `Critical` = 3.
pub open spec fn rank_of(i: Importance) -> u8 {
    match i {
        Importance::Low => 0,
        Importance::Medium => 1,
        Importance::High => 2,
        Importance::Critical => 3,
    }
}

/// Rank of an importance level, `Low` = 0 up to `Critical` = 3.
pub fn importance_rank(i: Importance) -> (r: u8)
    ensures
        r == rank_of(i),
{
    match i {
        Importance::Low => 0,
        Importance::Medium => 1,
        Importance::High => 2,
        Importance::Critical => 3,
    }
}

/// The more important of two levels; `a` on a tie.
pub fn max_importance(a: Importance, b: Importance) -> (r: Importance)
    ensures
        rank_of(a) >= rank_of(b) ==> r == a,
        rank_of(a) < rank_of(b) ==> r == b,
{
    if importance_rank(a) >= importance_rank(b) {
        a
    } else {
        b
    }
}

impl Importance {
    /// The lower-case name stored in the database.
    pub fn as_str(&self) -> (s: &'static str)
        ensures
            s@ == crate::documents::importance_name(*self),
    {
        proof {
            reveal_strlit("low");
            reveal_strlit("medium");
            reveal_strlit("high");
            reveal_strlit("critical");
        }
        match self {
            Importance::Low => "low",
            Importance::Medium => "medium",
            Importance::High => "high",
            Importance::Critical => "critical",
        }
    }
}

/// Where a memory came from.
#[derive(Clone, Debug, PartialEq, Eq)]
pub enum MemorySource {
    ClaudeCode { session_id: String, file_path: Option<String> },
    Conversation { thread_id: Option<String> },
    Manual,
}

/// The `source_type` column value of a memory source.
pub open spec fn source_type_name(s: MemorySource) -> Seq<char> {
    match s {
        MemorySource::ClaudeCode { .. } => "claude_code"@,
        MemorySource::Conversation { .. } => "conversation"@,
        MemorySource::Manual => "manual"@,
    }
}

/// The `source_type` column value of a memory source.
pub fn source_type(source: &MemorySource) -> (s: &'static str)
    ensures
        s@ == source_type_name(*source),
{
    proof {
        reveal_strlit("claude_code");
        reveal_strlit("conversation");
        reveal_strlit("manual");
    }
    match source {
        MemorySource::ClaudeCode { .. } => "claude_code",
        MemorySource::Conversation { .. } => "conversation",
        MemorySource::Manual => "manual",
    }
}

/// A copy of an optional string.
pub fn copy_opt(s: &Option<String>) -> (r: Option<String>)
    ensures
        r == *s,
{
    match s {
        Some(x) => Some(x.clone()),
        None => None,
    }
}

/// A copy of a list of strings.
pub fn copy_strings(v: &Vec<String>) -> (r: Vec<String>)
    ensures
        r@ == v@,
{
    let mut r: Vec<String> = Vec::new();
    let mut i: usize = 0;
    while i < v.len()
        invariant
            i <= v.len(),
            r@ == v@.take(i as int),
        decreases v.len() - i,
    {
        r.push(v[i].clone());
        proof {
            assert(v@.take(i + 1) =~= v@.take(i as int).push(v@[i as int]));
        }
        i += 1;
    }
    proof {
        assert(v@.take(v.len() as int) =~= v@);
    }
    r
}

/// A copy of a memory source.
pub fn copy_source(s: &MemorySource) -> (r: MemorySource)
    ensures
        r == *s,
{
    match s {
        MemorySource::ClaudeCode { session_id, file_path } => MemorySource::ClaudeCode {
            session_id: session_id.clone(),
            file_path: copy_opt(file_path),
        },
        MemorySource::Conversation { thread_id } => MemorySource::Conversation {
            thread_id: copy_opt(thread_id),
        },
        MemorySource::Manual => MemorySource::Manual,
    }
}

/// Fixed-point scale of memory weights: `WEIGHT_ONE` stands for 1.0.
pub const WEIGHT_ONE: u32 = 1_000_000;

/// One stored memory. `weight` is fixed-point with `WEIGHT_ONE` = 1.0.
#[derive(Clone, Debug, PartialEq, Eq)]
pub struct Memory {
    pub id: String,
    pub created_at: String,
    pub updated_at: String,
    pub last_accessed: String,
    pub access_count: u32,
    pub weight: u32,
    pub topic: String,
    pub summary: String,
    pub raw_excerpt: Option<String>,
    pub keywords: Vec<String>,
    pub importance: Importance,
    pub source: MemorySource,
    pub related_ids: Vec<String>,
}

/// The value of a memory, with its lists as sequences.
pub ghost struct MemoryView {
    pub id: String,
    pub created_at: String,
    pub updated_at: String,
    pub last_accessed: String,
    pub access_count: u32,
    pub weight: u32,
    pub topic: String,
    pub summary: String,
    pub raw_excerpt: Option<String>,
    pub keywords: Seq<String>,
    pub importance: Importance,
    pub source: MemorySource,
    pub related_ids: Seq<String>,
}

impl View for Memory {
    type V = MemoryView;

    open spec fn view(&self) -> MemoryView {
        MemoryView {
            id: self.id,
            created_at: self.created_at,
            updated_at: self.updated_at,
            last_accessed: self.last_accessed,
            access_count: self.access_count,
            weight: self.weight,
            topic: self.topic,
            summary: self.summary,
            raw_excerpt: self.raw_excerpt,
            keywords: self.keywords@,
            importance: self.importance,
            source: self.source,
            related_ids: self.related_ids@,
        }
    }
}

impl Memory {
    /// A fresh memory: new id, current timestamps, full weight, no
    /// keywords, links or excerpt, manual source.
    pub fn new(topic: String, summary: String, importance: Importance) -> (m: Memory)
        ensures
            m.topic == topic,
            m.summary == summary,
            m.importance == importance,
            m.id@.len() == 26,
            m.weight == WEIGHT_ONE,
            m.access_count == 0,
            m.keywords@.len() == 0,
            m.related_ids@.len() == 0,
            m.raw_excerpt is None,
            m.source == MemorySource::Manual,
    {
        let now = now_rfc3339();
        Memory {
            id: new_ulid(),
            created_at: now.clone(),
            updated_at: now.clone(),
            last_accessed: now,
            access_count: 0,
            weight: WEIGHT_ONE,
            topic,
            summary,
            raw_excerpt: None,
            keywords: Vec::new(),
            importance,
            source: MemorySource::Manual,
            related_ids: Vec::new(),
        }
    }

    /// A field-for-field copy.
    pub fn copy(&self) -> (r: Memory)
        ensures
            r@ == self@,
    {
        Memory {
            id: self.id.clone(),
            created_at: self.created_at.clone(),
            updated_at: self.updated_at.clone(),
            last_accessed: self.last_accessed.clone(),
            access_count: self.access_count,
            weight: self.weight,
            topic: self.topic.clone(),
            summary: self.summary.clone(),
            raw_excerpt: copy_opt(&self.raw_excerpt),
            keywords: copy_strings(&self.keywords),
            importance: self.importance,
            source: copy_source(&self.source),
            related_ids: copy_strings(&self.related_ids),
        }
    }
}

/// Errors of the store.
#[derive(Clone, Debug, PartialEq, Eq)]
pub enum IcmError {
    Database(String),
    InvalidInput(String),
    NotFound(String),
    ReadOnly(String),
    Unsupported(String),
}

/// Result type of the store.
pub type IcmResult<T> = Result<T, IcmError>;

/// The text an error reads as: a kind prefix, then its detail.
pub open spec fn error_text(e: IcmError) -> Seq<char> {
    match e {
        IcmError::Database(m) => "database error: "@ + m@,
        IcmError::InvalidInput(m) => "invalid input: "@ + m@,
        IcmError::NotFound(m) => "not found: "@ + m@,
        IcmError::ReadOnly(m) => "read-only store: "@ + m@,
        IcmError::Unsupported(m) => "unsupported: "@ + m@,
    }
}

impl IcmError {
    /// The text this error reads as.
    pub fn message(&self) -> (s: String)
        ensures
            s@ == error_text(*self),
    {
        match self {
            IcmError::Database(m) => concat("database error: ", m.as_str()),
            IcmError::InvalidInput(m) => concat("invalid input: ", m.as_str()),
            IcmError::NotFound(m) => concat("not found: ", m.as_str()),
            IcmError::ReadOnly(m) => concat("read-only store: ", m.as_str()),
            IcmError::Unsupported(m) => concat("unsupported: ", m.as_str()),
        }
    }
}

/// A versioned fact about an entity; `superseded_at` is `None` for the
/// active row of an `(entity, key)` slot.
#[derive(Clone, Debug, PartialEq, Eq)]
pub struct Fact {
    pub id: String,
    pub entity: String,
    pub key: String,
    pub value: String,
    pub source: String,
    pub created_at: String,
    pub superseded_at: Option<String>,
}

impl Fact {
    /// A new active fact with a fresh id and the current time.
    pub fn new(entity: String, key: String, value: String, source: String) -> (f: Fact)
        ensures
            f.entity == entity,
            f.key == key,
            f.value == value,
            f.source == source,
            f.superseded_at is None,
            f.id@.len() == 26,
    {
        Fact {
            id: new_ulid(),
            entity,
            key,
            value,
            source,
            created_at: now_rfc3339(),
            superseded_at: None,
        }
    }

    /// Whether this row is the active one of its slot.
    pub fn is_active(&self) -> (b: bool)
        ensures
            b == (self.superseded_at is None),
    {
        self.superseded_at.is_none()
    }

    /// A field-for-field copy.
    pub fn copy(&self) -> (r: Fact)
        ensures
            r == *self,
    {
        Fact {
            id: self.id.clone(),
            entity: self.entity.clone(),
            key: self.key.clone(),
            value: self.value.clone(),
            source: self.source.clone(),
            created_at: self.created_at.clone(),
            superseded_at: copy_opt(&self.superseded_at),
        }
    }
}

/// Aggregate counts over the facts table.
#[derive(Clone, Debug, PartialEq, Eq)]
pub struct FactsStats {
    pub active_count: usize,
    pub total_count: usize,
    pub distinct_entities: usize,
    pub top_entities: Vec<(String, usize)>,
}

/// An invalid-input error with the given detail.
pub fn invalid_input(detail: &str) -> (e: IcmError)
    ensures
        e matches IcmError::InvalidInput(m) && m@ == detail@,
{
    IcmError::InvalidInput(owned(detail))
}

/// The database's answer to a write on a store opened read-only.
pub open spec fn readonly_db_error(e: IcmError) -> bool {
    e matches IcmError::Database(m) && m@ == "attempt to write a readonly database"@
}

/// The error a write statement meets on a store opened read-only.
pub fn readonly_db() -> (e: IcmError)
    ensures
        readonly_db_error(e),
{
    IcmError::Database(owned("attempt to write a readonly database"))
}

} // verus!
