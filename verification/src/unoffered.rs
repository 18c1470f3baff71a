//! The operations the PostgreSQL and OpenSearch backends do not offer:
//! each answers `Unsupported` naming itself.
use vstd::prelude::*;
use crate::backends::{OpenSearchStore, PostgresStore, unsupported, unsupported_text};
use crate::graph::{Concept, ConceptLink, Label, Memoir, MemoirStats, Relation};
use crate::model::{Fact, FactsStats, IcmError, IcmResult};
use crate::transcript::{Message, Role, Session, TranscriptHit, TranscriptStats};

verus! {

impl OpenSearchStore {
    /// Not offered by this backend.
    pub fn create_memoir(&self, memoir: Memoir) -> (r: IcmResult<String>)
        ensures
            r matches Err(IcmError::Unsupported(m)) && m@ == unsupported_text("memoir.create_memoir"@),
    {
        Err(unsupported("memoir.create_memoir"))
    }

    /// Not offered by this backend.
    pub fn get_memoir(&self, id: &str) -> (r: IcmResult<Option<Memoir>>)
        ensures
            r matches Err(IcmError::Unsupported(m)) && m@ == unsupported_text("memoir.get_memoir"@),
    {
        Err(unsupported("memoir.get_memoir"))
    }

    /// Not offered by this backend.
    pub fn get_memoir_by_name(&self, name: &str) -> (r: IcmResult<Option<Memoir>>)
        ensures
            r matches Err(IcmError::Unsupported(m)) && m@ == unsupported_text("memoir.get_memoir_by_name"@),
    {
        Err(unsupported("memoir.get_memoir_by_name"))
    }

    /// Not offered by this backend.
    pub fn update_memoir(&self, memoir: &Memoir) -> (r: IcmResult<()>)
        ensures
            r matches Err(IcmError::Unsupported(m)) && m@ == unsupported_text("memoir.update_memoir"@),
    {
        Err(unsupported("memoir.update_memoir"))
    }

    /// Not offered by this backend.
    pub fn delete_memoir(&self, id: &str) -> (r: IcmResult<()>)
        ensures
            r matches Err(IcmError::Unsupported(m)) && m@ == unsupported_text("memoir.delete_memoir"@),
    {
        Err(unsupported("memoir.delete_memoir"))
    }

    /// Not offered by this backend.
    pub fn list_memoirs(&self) -> (r: IcmResult<Vec<Memoir>>)
        ensures
            r matches Err(IcmError::Unsupported(m)) && m@ == unsupported_text("memoir.list_memoirs"@),
    {
        Err(unsupported("memoir.list_memoirs"))
    }

    /// Not offered by this backend.
    pub fn add_concept(&self, concept: Concept) -> (r: IcmResult<String>)
        ensures
            r matches Err(IcmError::Unsupported(m)) && m@ == unsupported_text("memoir.add_concept"@),
    {
        Err(unsupported("memoir.add_concept"))
    }

    /// Not offered by this backend.
    pub fn get_concept(&self, id: &str) -> (r: IcmResult<Option<Concept>>)
        ensures
            r matches Err(IcmError::Unsupported(m)) && m@ == unsupported_text("memoir.get_concept"@),
    {
        Err(unsupported("memoir.get_concept"))
    }

    /// Not offered by this backend.
    pub fn get_concept_by_name(&self, memoir_id: &str, name: &str) -> (r: IcmResult<Option<Concept>>)
        ensures
            r matches Err(IcmError::Unsupported(m)) && m@ == unsupported_text("memoir.get_concept_by_name"@),
    {
        Err(unsupported("memoir.get_concept_by_name"))
    }

    /// Not offered by this backend.
    pub fn update_concept(&self, concept: &Concept) -> (r: IcmResult<()>)
        ensures
            r matches Err(IcmError::Unsupported(m)) && m@ == unsupported_text("memoir.update_concept"@),
    {
        Err(unsupported("memoir.update_concept"))
    }

    /// Not offered by this backend.
    pub fn delete_concept(&self, id: &str) -> (r: IcmResult<()>)
        ensures
            r matches Err(IcmError::Unsupported(m)) && m@ == unsupported_text("memoir.delete_concept"@),
    {
        Err(unsupported("memoir.delete_concept"))
    }

    /// Not offered by this backend.
    pub fn list_concepts(&self, memoir_id: &str) -> (r: IcmResult<Vec<Concept>>)
        ensures
            r matches Err(IcmError::Unsupported(m)) && m@ == unsupported_text("memoir.list_concepts"@),
    {
        Err(unsupported("memoir.list_concepts"))
    }

    /// Not offered by this backend.
    pub fn search_concepts_fts(&self, memoir_id: &str, query: &str, limit: usize) -> (r: IcmResult<Vec<Concept>>)
        ensures
            r matches Err(IcmError::Unsupported(m)) && m@ == unsupported_text("memoir.search_concepts_fts"@),
    {
        Err(unsupported("memoir.search_concepts_fts"))
    }

    /// Not offered by this backend.
    pub fn search_concepts_by_label(&self, memoir_id: &str, label: &Label, limit: usize) -> (r: IcmResult<Vec<Concept>>)
        ensures
            r matches Err(IcmError::Unsupported(m)) && m@ == unsupported_text("memoir.search_concepts_by_label"@),
    {
        Err(unsupported("memoir.search_concepts_by_label"))
    }

    /// Not offered by this backend.
    pub fn search_all_concepts_fts(&self, query: &str, limit: usize) -> (r: IcmResult<Vec<Concept>>)
        ensures
            r matches Err(IcmError::Unsupported(m)) && m@ == unsupported_text("memoir.search_all_concepts_fts"@),
    {
        Err(unsupported("memoir.search_all_concepts_fts"))
    }

    /// Not offered by this backend.
    pub fn refine_concept(&self, id: &str, new_definition: &str, new_source_ids: &[String]) -> (r: IcmResult<()>)
        ensures
            r matches Err(IcmError::Unsupported(m)) && m@ == unsupported_text("memoir.refine_concept"@),
    {
        Err(unsupported("memoir.refine_concept"))
    }

    /// Not offered by this backend.
    pub fn add_link(&self, link: ConceptLink) -> (r: IcmResult<String>)
        ensures
            r matches Err(IcmError::Unsupported(m)) && m@ == unsupported_text("memoir.add_link"@),
    {
        Err(unsupported("memoir.add_link"))
    }

    /// Not offered by this backend.
    pub fn get_links_from(&self, concept_id: &str) -> (r: IcmResult<Vec<ConceptLink>>)
        ensures
            r matches Err(IcmError::Unsupported(m)) && m@ == unsupported_text("memoir.get_links_from"@),
    {
        Err(unsupported("memoir.get_links_from"))
    }

    /// Not offered by this backend.
    pub fn get_links_to(&self, concept_id: &str) -> (r: IcmResult<Vec<ConceptLink>>)
        ensures
            r matches Err(IcmError::Unsupported(m)) && m@ == unsupported_text("memoir.get_links_to"@),
    {
        Err(unsupported("memoir.get_links_to"))
    }

    /// Not offered by this backend.
    pub fn delete_link(&self, id: &str) -> (r: IcmResult<()>)
        ensures
            r matches Err(IcmError::Unsupported(m)) && m@ == unsupported_text("memoir.delete_link"@),
    {
        Err(unsupported("memoir.delete_link"))
    }

    /// Not offered by this backend.
    pub fn get_neighbors(&self, concept_id: &str, relation: Option<Relation>) -> (r: IcmResult<Vec<Concept>>)
        ensures
            r matches Err(IcmError::Unsupported(m)) && m@ == unsupported_text("memoir.get_neighbors"@),
    {
        Err(unsupported("memoir.get_neighbors"))
    }

    /// Not offered by this backend.
    pub fn get_neighborhood(&self, concept_id: &str, depth: usize) -> (r: IcmResult<(Vec<Concept>, Vec<ConceptLink>)>)
        ensures
            r matches Err(IcmError::Unsupported(m)) && m@ == unsupported_text("memoir.get_neighborhood"@),
    {
        Err(unsupported("memoir.get_neighborhood"))
    }

    /// Not offered by this backend.
    pub fn get_links_for_memoir(&self, memoir_id: &str) -> (r: IcmResult<Vec<ConceptLink>>)
        ensures
            r matches Err(IcmError::Unsupported(m)) && m@ == unsupported_text("memoir.get_links_for_memoir"@),
    {
        Err(unsupported("memoir.get_links_for_memoir"))
    }

    /// Not offered by this backend.
    pub fn memoir_stats(&self, memoir_id: &str) -> (r: IcmResult<MemoirStats>)
        ensures
            r matches Err(IcmError::Unsupported(m)) && m@ == unsupported_text("memoir.memoir_stats"@),
    {
        Err(unsupported("memoir.memoir_stats"))
    }

    /// Not offered by this backend.
    pub fn batch_memoir_concept_counts(&self) -> (r: IcmResult<Vec<(String, usize)>>)
        ensures
            r matches Err(IcmError::Unsupported(m)) && m@ == unsupported_text("memoir.batch_memoir_concept_counts"@),
    {
        Err(unsupported("memoir.batch_memoir_concept_counts"))
    }
}

impl OpenSearchStore {
    /// Not offered by this backend.
    pub fn create_session(&self, agent: &str, project: Option<&str>, metadata: Option<&str>) -> (r: IcmResult<String>)
        ensures
            r matches Err(IcmError::Unsupported(m)) && m@ == unsupported_text("transcript.create_session"@),
    {
        Err(unsupported("transcript.create_session"))
    }

    /// Not offered by this backend.
    pub fn ensure_session(&self, id: &str, agent: &str, project: Option<&str>, metadata: Option<&str>) -> (r: IcmResult<String>)
        ensures
            r matches Err(IcmError::Unsupported(m)) && m@ == unsupported_text("transcript.ensure_session"@),
    {
        Err(unsupported("transcript.ensure_session"))
    }

    /// Not offered by this backend.
    pub fn get_session(&self, id: &str) -> (r: IcmResult<Option<Session>>)
        ensures
            r matches Err(IcmError::Unsupported(m)) && m@ == unsupported_text("transcript.get_session"@),
    {
        Err(unsupported("transcript.get_session"))
    }

    /// Not offered by this backend.
    pub fn list_sessions(&self, project: Option<&str>, limit: usize) -> (r: IcmResult<Vec<Session>>)
        ensures
            r matches Err(IcmError::Unsupported(m)) && m@ == unsupported_text("transcript.list_sessions"@),
    {
        Err(unsupported("transcript.list_sessions"))
    }

    /// Not offered by this backend.
    pub fn record_message(&self, session_id: &str, role: Role, content: &str, tool_name: Option<&str>, tokens: Option<i64>, metadata: Option<&str>) -> (r: IcmResult<String>)
        ensures
            r matches Err(IcmError::Unsupported(m)) && m@ == unsupported_text("transcript.record_message"@),
    {
        Err(unsupported("transcript.record_message"))
    }

    /// Not offered by this backend.
    pub fn list_session_messages(&self, session_id: &str, limit: usize, offset: usize) -> (r: IcmResult<Vec<Message>>)
        ensures
            r matches Err(IcmError::Unsupported(m)) && m@ == unsupported_text("transcript.list_session_messages"@),
    {
        Err(unsupported("transcript.list_session_messages"))
    }

    /// Not offered by this backend.
    pub fn search_transcripts(&self, query: &str, session_id: Option<&str>, project: Option<&str>, limit: usize) -> (r: IcmResult<Vec<TranscriptHit>>)
        ensures
            r matches Err(IcmError::Unsupported(m)) && m@ == unsupported_text("transcript.search_transcripts"@),
    {
        Err(unsupported("transcript.search_transcripts"))
    }

    /// Not offered by this backend.
    pub fn forget_session(&self, id: &str) -> (r: IcmResult<()>)
        ensures
            r matches Err(IcmError::Unsupported(m)) && m@ == unsupported_text("transcript.forget_session"@),
    {
        Err(unsupported("transcript.forget_session"))
    }

    /// Not offered by this backend.
    pub fn transcript_stats(&self) -> (r: IcmResult<TranscriptStats>)
        ensures
            r matches Err(IcmError::Unsupported(m)) && m@ == unsupported_text("transcript.transcript_stats"@),
    {
        Err(unsupported("transcript.transcript_stats"))
    }
}

impl PostgresStore {
    /// Not offered by this backend.
    pub fn set_fact(&self, entity: &str, key: &str, value: &str, source: &str) -> (r: IcmResult<String>)
        ensures
            r matches Err(IcmError::Unsupported(m)) && m@ == unsupported_text("facts.set_fact"@),
    {
        Err(unsupported("facts.set_fact"))
    }

    /// Not offered by this backend.
    pub fn get_fact(&self, entity: &str, key: &str) -> (r: IcmResult<Option<Fact>>)
        ensures
            r matches Err(IcmError::Unsupported(m)) && m@ == unsupported_text("facts.get_fact"@),
    {
        Err(unsupported("facts.get_fact"))
    }

    /// Not offered by this backend.
    pub fn list_facts(&self, entity: &str, key_prefix: Option<&str>) -> (r: IcmResult<Vec<Fact>>)
        ensures
            r matches Err(IcmError::Unsupported(m)) && m@ == unsupported_text("facts.list_facts"@),
    {
        Err(unsupported("facts.list_facts"))
    }

    /// Not offered by this backend.
    pub fn history(&self, entity: &str, key: &str) -> (r: IcmResult<Vec<Fact>>)
        ensures
            r matches Err(IcmError::Unsupported(m)) && m@ == unsupported_text("facts.history"@),
    {
        Err(unsupported("facts.history"))
    }

    /// Not offered by this backend.
    pub fn forget_fact(&self, entity: &str, key: &str) -> (r: IcmResult<usize>)
        ensures
            r matches Err(IcmError::Unsupported(m)) && m@ == unsupported_text("facts.forget_fact"@),
    {
        Err(unsupported("facts.forget_fact"))
    }

    /// Not offered by this backend.
    pub fn facts_stats(&self) -> (r: IcmResult<FactsStats>)
        ensures
            r matches Err(IcmError::Unsupported(m)) && m@ == unsupported_text("facts.facts_stats"@),
    {
        Err(unsupported("facts.facts_stats"))
    }
}

} // verus!
