//! The transcript operations of the store: sessions and messages behind
//! the read-only switch.
use vstd::prelude::*;
use crate::model::{IcmError, IcmResult, readonly_db, readonly_db_error};
use crate::store::SqliteStore;
use crate::text::{concat, owned};
use crate::transcript::{
    Message, Role, Session, TranscriptHit, TranscriptStats, create_session_effect, distinct_rows, has_session, ensure_session_effect, forget_session_effect,
    message_page, opt_str, record_message_effect, search_result, session_listing, session_with_id, stats_of_transcripts,
};

verus! {

/// The store's other tables are untouched.
pub open spec fn transcripts_only(before: SqliteStore, after: SqliteStore) -> bool {
    &&& after.readonly == before.readonly
    &&& after.facts@ == before.facts@
    &&& after.memories.rows@ == before.memories.rows@
    &&& after.graph == before.graph
}

/// A write the read-only database refuses: the transcripts are untouched
/// and the error is the database's.
pub open spec fn refused_write(before: SqliteStore, after: SqliteStore, e: IcmError) -> bool {
    &&& after.transcripts == before.transcripts
    &&& readonly_db_error(e)
}

impl SqliteStore {
    /// Start a new session (see `TranscriptTable::create_session`); on a
    /// read-only store the insert is the database's error.
    pub fn create_session(&mut self, agent: &str, project: Option<&str>, metadata: Option<&str>) -> (r: IcmResult<String>)
        requires
            old(self).wf(),
        ensures
            final(self).wf(),
            transcripts_only(*old(self), *final(self)),
            old(self).readonly ==> (r matches Err(e) && refused_write(*old(self), *final(self), e)),
            !old(self).readonly ==> create_session_effect(old(self).transcripts, final(self).transcripts, agent@, opt_str(project), opt_str(metadata), r),
    {
        if self.readonly {
            return Err(readonly_db());
        }
        self.transcripts.create_session(agent, project, metadata)
    }

    /// Make sure session `id` exists (see `TranscriptTable::ensure_session`);
    /// on a read-only store the insert is the database's error.
    pub fn ensure_session(&mut self, id: &str, agent: &str, project: Option<&str>, metadata: Option<&str>) -> (r: IcmResult<String>)
        requires
            old(self).wf(),
        ensures
            final(self).wf(),
            transcripts_only(*old(self), *final(self)),
            old(self).readonly ==> (r matches Err(e) && refused_write(*old(self), *final(self), e)),
            !old(self).readonly ==> ensure_session_effect(old(self).transcripts, final(self).transcripts, id@, agent@, opt_str(project), opt_str(metadata), r),
    {
        if self.readonly {
            return Err(readonly_db());
        }
        self.transcripts.ensure_session(id, agent, project, metadata)
    }

    /// The session with id `id`, if any.
    pub fn get_session(&self, id: &str) -> (r: IcmResult<Option<Session>>)
        requires
            self.wf(),
        ensures
            r == Ok::<Option<Session>, IcmError>(session_with_id(self.transcripts.sessions@, id@)),
    {
        self.transcripts.get_session(id)
    }

    /// Sessions (of `project` when one is given), most recently updated
    /// first, at most `limit`.
    pub fn list_sessions(&self, project: Option<&str>, limit: usize) -> (r: IcmResult<Vec<Session>>)
        ensures
            r matches Ok(v) && session_listing(self.transcripts, opt_str(project), limit as nat, v@),
    {
        self.transcripts.list_sessions(project, limit)
    }

    /// Record a message (see `TranscriptTable::record_message`). On a
    /// read-only store a session that does not exist is still `NotFound`;
    /// for one that does, the insert is the database's error.
    pub fn record_message(
        &mut self,
        session_id: &str,
        role: Role,
        content: &str,
        tool_name: Option<&str>,
        tokens: Option<i64>,
        metadata: Option<&str>,
    ) -> (r: IcmResult<String>)
        requires
            old(self).wf(),
        ensures
            final(self).wf(),
            transcripts_only(*old(self), *final(self)),
            old(self).readonly ==> final(self).transcripts == old(self).transcripts,
            old(self).readonly && has_session(old(self).transcripts.sessions@, session_id@) ==> (r matches Err(e) && readonly_db_error(e)),
            old(self).readonly && !has_session(old(self).transcripts.sessions@, session_id@)
                ==> (r matches Err(IcmError::NotFound(m)) && m@ == "session "@ + session_id@ + " does not exist"@),
            !old(self).readonly ==> record_message_effect(
                old(self).transcripts,
                final(self).transcripts,
                session_id@,
                role,
                content@,
                opt_str(tool_name),
                tokens,
                opt_str(metadata),
                r,
            ),
    {
        if self.readonly {
            if self.transcripts.session_index(&owned(session_id)).is_some() {
                return Err(readonly_db());
            }
            let a = concat("session ", session_id);
            return Err(IcmError::NotFound(concat(a.as_str(), " does not exist")));
        }
        self.transcripts.record_message(session_id, role, content, tool_name, tokens, metadata)
    }

    /// A page of session `session_id`'s messages in time order.
    pub fn list_session_messages(&self, session_id: &str, limit: usize, offset: usize) -> (r: IcmResult<Vec<Message>>)
        ensures
            r matches Ok(v) && message_page(self.transcripts, session_id@, limit as nat, offset as nat, v@),
    {
        self.transcripts.list_session_messages(session_id, limit, offset)
    }

    /// Full-text search of the messages (see
    /// `TranscriptTable::search_transcripts`).
    pub fn search_transcripts(&self, query: &str, session_id: Option<&str>, project: Option<&str>, limit: usize) -> (r: IcmResult<Vec<TranscriptHit>>)
        requires
            self.wf(),
        ensures
            r matches Ok(v) && search_result(self.transcripts, query@, opt_str(session_id), opt_str(project), limit as nat, v@),
            r matches Ok(v) ==> distinct_rows(self.transcripts.messages@, v@),
    {
        self.transcripts.search_transcripts(query, session_id, project, limit)
    }

    /// Delete session `id` and its messages; on a read-only store the
    /// delete is the database's error.
    pub fn forget_session(&mut self, id: &str) -> (r: IcmResult<()>)
        requires
            old(self).wf(),
        ensures
            final(self).wf(),
            transcripts_only(*old(self), *final(self)),
            old(self).readonly ==> (r matches Err(e) && refused_write(*old(self), *final(self), e)),
            !old(self).readonly ==> forget_session_effect(old(self).transcripts, final(self).transcripts, id@, r),
    {
        if self.readonly {
            return Err(readonly_db());
        }
        self.transcripts.forget_session(id)
    }

    /// Counts over the transcript tables.
    pub fn transcript_stats(&self) -> (r: IcmResult<TranscriptStats>)
        ensures
            r matches Ok(st) && stats_of_transcripts(self.transcripts, st),
    {
        self.transcripts.transcript_stats()
    }
}

} // verus!
