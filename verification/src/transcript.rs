//! Session transcripts: sessions of an agent and the messages recorded in
//! them, with full-text search over message contents.
use vstd::prelude::*;
use crate::clock::{new_ulid, now_rfc3339};
use crate::encode::{cut_to_bytes, truncate_at_char_boundary};
use crate::model::{IcmError, IcmResult};
use crate::order::{TextKeyed, sort_by_text, sorted_by_text, text_le};
use crate::tally::{occurrences, tallies, tally, tally_names, text_views};
use crate::order::sorted_by_count_desc;
use crate::text::{chars_of, concat, owned};

verus! {

broadcast use vstd::seq_lib::group_seq_properties;

/// Who wrote a message.
#[derive(Clone, Copy, Debug, PartialEq, Eq, Structural)]
pub enum Role {
    User,
    Assistant,
    System,
    Tool,
}

/// The stored name of a role.
pub open spec fn role_name(r: Role) -> Seq<char> {
    match r {
        Role::User => "user"@,
        Role::Assistant => "assistant"@,
        Role::System => "system"@,
        Role::Tool => "tool"@,
    }
}

impl Role {
    /// The stored name of the role.
    pub fn as_str(&self) -> (s: &'static str)
        ensures
            s@ == role_name(*self),
    {
        proof {
            reveal_strlit("user");
            reveal_strlit("assistant");
            reveal_strlit("system");
            reveal_strlit("tool");
        }
        match self {
            Role::User => "user",
            Role::Assistant => "assistant",
            Role::System => "system",
            Role::Tool => "tool",
        }
    }
}

/// Largest message content kept, in bytes of UTF-8; longer content is cut.
pub const MAX_MESSAGE_BYTES: usize = 262_144;

/// Largest tool name kept, in bytes of UTF-8.
pub const MAX_TOOL_NAME_BYTES: usize = 512;

/// Largest metadata kept, in bytes of UTF-8.
pub const MAX_METADATA_BYTES: usize = 65_536;

/// One agent session.
#[derive(Clone, Debug, PartialEq, Eq)]
pub struct Session {
    pub id: String,
    pub agent: String,
    pub project: Option<String>,
    pub started_at: String,
    pub updated_at: String,
    pub metadata: Option<String>,
}

/// One recorded message.
#[derive(Clone, Debug, PartialEq, Eq)]
pub struct Message {
    pub id: String,
    pub session_id: String,
    pub role: Role,
    pub content: String,
    pub tool_name: Option<String>,
    pub tokens: Option<i64>,
    pub ts: String,
    pub metadata: Option<String>,
}

/// A search hit: the message and its session.
#[derive(Clone, Debug, PartialEq, Eq)]
pub struct TranscriptHit {
    pub message: Message,
    pub session: Session,
}

/// Figures over all transcripts. `total_bytes` sums the lengths of the
/// contents in characters, as SQL `LENGTH` counts them.
#[derive(Clone, Debug, PartialEq, Eq)]
pub struct TranscriptStats {
    pub total_sessions: usize,
    pub total_messages: usize,
    pub total_bytes: u64,
    pub by_role: Vec<(String, usize)>,
    pub by_agent: Vec<(String, usize)>,
    pub top_sessions: Vec<(String, usize)>,
    pub oldest: Option<String>,
    pub newest: Option<String>,
}

/// `out` is the optional text `s` cut to at most `max` bytes on a
/// character boundary.
pub open spec fn capped(s: Option<Seq<char>>, max: nat, out: Option<String>) -> bool {
    match s {
        None => out is None,
        Some(x) => out matches Some(y) && y@ == cut_to_bytes(x, max),
    }
}

/// The text of an optional string slice.
pub open spec fn opt_str(s: Option<&str>) -> Option<Seq<char>> {
    match s {
        Some(x) => Some(x@),
        None => None,
    }
}

/// The text of an optional string.
pub open spec fn opt_text(s: Option<String>) -> Option<Seq<char>> {
    match s {
        Some(x) => Some(x@),
        None => None,
    }
}

/// `cap_opt` as a function.
fn cap_opt(s: Option<&str>, max: usize) -> (r: Option<String>)
    ensures
        capped(opt_str(s), max as nat, r),
{
    match s {
        Some(x) => Some(truncate_at_char_boundary(x, max)),
        None => None,
    }
}

/// An optional string slice, owned.
fn own_opt(s: Option<&str>) -> (r: Option<String>)
    ensures
        opt_text(r) == opt_str(s),
{
    match s {
        Some(x) => Some(owned(x)),
        None => None,
    }
}

/// The sessions and messages tables, rows in insertion order.
pub struct TranscriptTable {
    pub sessions: Vec<Session>,
    pub messages: Vec<Message>,
}

/// Some session has id `id`.
pub open spec fn has_session(t: Seq<Session>, id: Seq<char>) -> bool {
    exists|k: int| 0 <= k < t.len() && (#[trigger] t[k]).id@ == id
}

/// The session with id `id`, if any.
pub open spec fn session_with_id(t: Seq<Session>, id: Seq<char>) -> Option<Session> {
    if has_session(t, id) {
        Some(t[choose|k: int| 0 <= k < t.len() && (#[trigger] t[k]).id@ == id])
    } else {
        None
    }
}

impl TextKeyed for Message {
    open spec fn text_key(&self) -> Seq<char> {
        self.ts@
    }

    fn key_chars(&self) -> (k: Vec<char>) {
        chars_of(self.ts.as_str())
    }
}

impl TextKeyed for Session {
    open spec fn text_key(&self) -> Seq<char> {
        self.updated_at@
    }

    fn key_chars(&self) -> (k: Vec<char>) {
        chars_of(self.updated_at.as_str())
    }
}

impl Session {
    /// A field-for-field copy.
    pub fn copy(&self) -> (r: Session)
        ensures
            r == *self,
    {
        Session {
            id: self.id.clone(),
            agent: self.agent.clone(),
            project: match &self.project {
                Some(p) => Some(p.clone()),
                None => None,
            },
            started_at: self.started_at.clone(),
            updated_at: self.updated_at.clone(),
            metadata: match &self.metadata {
                Some(p) => Some(p.clone()),
                None => None,
            },
        }
    }
}

impl Message {
    /// A field-for-field copy.
    pub fn copy(&self) -> (r: Message)
        ensures
            r == *self,
    {
        Message {
            id: self.id.clone(),
            session_id: self.session_id.clone(),
            role: self.role,
            content: self.content.clone(),
            tool_name: match &self.tool_name {
                Some(p) => Some(p.clone()),
                None => None,
            },
            tokens: self.tokens,
            ts: self.ts.clone(),
            metadata: match &self.metadata {
                Some(p) => Some(p.clone()),
                None => None,
            },
        }
    }
}

/// Session ids are unique and every message belongs to a stored session.
pub open spec fn transcripts_wf(s: Seq<Session>, m: Seq<Message>) -> bool {
    &&& forall|i: int, j: int| 0 <= i < s.len() && 0 <= j < s.len() && i != j ==> (#[trigger] s[i]).id@ != (#[trigger] s[j]).id@
    &&& forall|i: int| 0 <= i < m.len() ==> has_session(s, (#[trigger] m[i]).session_id@)
}

impl TranscriptTable {
    /// The table invariant.
    pub open spec fn wf(&self) -> bool {
        transcripts_wf(self.sessions@, self.messages@)
    }

    /// Empty tables.
    pub fn new() -> (t: TranscriptTable)
        ensures
            t.wf(),
            t.sessions@.len() == 0,
            t.messages@.len() == 0,
    {
        TranscriptTable { sessions: Vec::new(), messages: Vec::new() }
    }

    /// Index of session `id`.
    pub fn session_index(&self, id: &String) -> (r: Option<usize>)
        ensures
            r matches Some(i) ==> i < self.sessions@.len() && self.sessions@[i as int].id@ == id@,
            r is None ==> !has_session(self.sessions@, id@),
    {
        let mut i: usize = 0;
        while i < self.sessions.len()
            invariant
                i <= self.sessions.len(),
                forall|j: int| 0 <= j < i ==> (#[trigger] self.sessions@[j]).id@ != id@,
            decreases self.sessions.len() - i,
        {
            if self.sessions[i].id == *id {
                return Some(i);
            }
            i += 1;
        }
        None
    }

    /// Append a session whose id is new.
    fn add_session(&mut self, s: Session)
        requires
            old(self).wf(),
            !has_session(old(self).sessions@, s.id@),
        ensures
            final(self).wf(),
            final(self).sessions@ == old(self).sessions@.push(s),
            final(self).messages@ == old(self).messages@,
    {
        let ghost old_s = self.sessions@;
        self.sessions.push(s);
        proof {
            let t = self.sessions@;
            assert forall|i: int, j: int| 0 <= i < t.len() && 0 <= j < t.len() && i != j implies (#[trigger] t[i]).id@ != (#[trigger] t[j]).id@ by {
                if i < old_s.len() && j < old_s.len() {
                    assert(t[i] == old_s[i] && t[j] == old_s[j]);
                } else if i < old_s.len() {
                    assert(t[i] == old_s[i]);
                } else {
                    assert(t[j] == old_s[j]);
                }
            }
            let m = self.messages@;
            assert forall|i: int| 0 <= i < m.len() implies has_session(t, (#[trigger] m[i]).session_id@) by {
                let k = choose|k: int| 0 <= k < old_s.len() && (#[trigger] old_s[k]).id@ == m[i].session_id@;
                assert(t[k] == old_s[k]);
            }
        }
    }

    /// Start a new session with a fresh id and answer the id; metadata is
    /// cut to `MAX_METADATA_BYTES`. A fresh id already taken is a database
    /// error.
    pub fn create_session(&mut self, agent: &str, project: Option<&str>, metadata: Option<&str>) -> (r: IcmResult<String>)
        requires
            old(self).wf(),
        ensures
            final(self).wf(),
            create_session_effect(*old(self), *final(self), agent@, opt_str(project), opt_str(metadata), r),
    {
        let now = now_rfc3339();
        let id = new_ulid();
        self.insert_session(id, agent, project, metadata, now)
    }

    /// Insert a session under the drawn id `id`, started and updated at
    /// `now`, metadata cut to `MAX_METADATA_BYTES`, and answer the id. An id
    /// already taken is the database's uniqueness error and changes nothing.
    pub fn insert_session(&mut self, id: String, agent: &str, project: Option<&str>, metadata: Option<&str>, now: String) -> (r: IcmResult<String>)
        requires
            old(self).wf(),
        ensures
            final(self).wf(),
            final(self).messages@ == old(self).messages@,
            has_session(old(self).sessions@, id@) ==> final(self).sessions@ == old(self).sessions@
                && (r matches Err(IcmError::Database(m)) && m@ == "UNIQUE constraint failed: sessions.id"@),
            !has_session(old(self).sessions@, id@) ==> r == Ok::<String, IcmError>(id) && exists|s: Session| {
                &&& final(self).sessions@ == old(self).sessions@.push(s)
                &&& s.id == id
                &&& s.agent@ == agent@
                &&& opt_text(s.project) == opt_str(project)
                &&& capped(opt_str(metadata), MAX_METADATA_BYTES as nat, s.metadata)
                &&& s.started_at == now
                &&& s.updated_at == now
            },
    {
        if self.session_index(&id).is_some() {
            return Err(IcmError::Database(owned("UNIQUE constraint failed: sessions.id")));
        }
        let s = Session {
            id: id.clone(),
            agent: owned(agent),
            project: own_opt(project),
            started_at: now.clone(),
            updated_at: now,
            metadata: cap_opt(metadata, MAX_METADATA_BYTES),
        };
        self.add_session(s);
        Ok(id)
    }

    /// Put back a stored session as it was saved. An id already taken is
    /// the database's uniqueness error and changes nothing.
    pub fn restore_session(&mut self, s: Session) -> (r: IcmResult<()>)
        requires
            old(self).wf(),
        ensures
            final(self).wf(),
            final(self).messages@ == old(self).messages@,
            r is Ok <==> !has_session(old(self).sessions@, s.id@),
            r is Ok ==> final(self).sessions@ == old(self).sessions@.push(s),
            r is Err ==> final(self).sessions@ == old(self).sessions@
                && (r matches Err(IcmError::Database(m)) && m@ == "UNIQUE constraint failed: sessions.id"@),
    {
        if self.session_index(&s.id).is_some() {
            return Err(IcmError::Database(owned("UNIQUE constraint failed: sessions.id")));
        }
        self.add_session(s);
        Ok(())
    }

    /// Put back a stored message as it was saved. A message whose session
    /// is not stored is the database's foreign-key error and changes
    /// nothing.
    pub fn restore_message(&mut self, m: Message) -> (r: IcmResult<()>)
        requires
            old(self).wf(),
        ensures
            final(self).wf(),
            final(self).sessions@ == old(self).sessions@,
            r is Ok <==> has_session(old(self).sessions@, m.session_id@),
            r is Ok ==> final(self).messages@ == old(self).messages@.push(m),
            r is Err ==> final(self).messages@ == old(self).messages@
                && (r matches Err(IcmError::Database(x)) && x@ == "FOREIGN KEY constraint failed"@),
    {
        if self.session_index(&m.session_id).is_none() {
            return Err(IcmError::Database(owned("FOREIGN KEY constraint failed")));
        }
        let ghost old_m = self.messages@;
        self.messages.push(m);
        proof {
            let ms = self.messages@;
            assert forall|i: int| 0 <= i < ms.len() implies has_session(self.sessions@, (#[trigger] ms[i]).session_id@) by {
                if i < old_m.len() {
                    assert(ms[i] == old_m[i]);
                }
            }
        }
        Ok(())
    }

    /// Make sure session `id` exists: an existing session is left as it is;
    /// otherwise one is created under that id (metadata cut to
    /// `MAX_METADATA_BYTES`, `{}` when none is given). Answers `id`.
    pub fn ensure_session(&mut self, id: &str, agent: &str, project: Option<&str>, metadata: Option<&str>) -> (r: IcmResult<String>)
        requires
            old(self).wf(),
        ensures
            final(self).wf(),
            ensure_session_effect(*old(self), *final(self), id@, agent@, opt_str(project), opt_str(metadata), r),
    {
        let key = owned(id);
        if self.session_index(&key).is_some() {
            return Ok(key);
        }
        let now = now_rfc3339();
        let md = match metadata {
            Some(m) => truncate_at_char_boundary(m, MAX_METADATA_BYTES),
            None => owned("{}"),
        };
        let s = Session {
            id: key.clone(),
            agent: owned(agent),
            project: own_opt(project),
            started_at: now.clone(),
            updated_at: now,
            metadata: Some(md),
        };
        self.add_session(s);
        Ok(key)
    }

    /// The session with id `id`, if any.
    pub fn get_session(&self, id: &str) -> (r: IcmResult<Option<Session>>)
        requires
            self.wf(),
        ensures
            r == Ok::<Option<Session>, IcmError>(session_with_id(self.sessions@, id@)),
    {
        match self.session_index(&owned(id)) {
            Some(i) => {
                proof {
                    let c = choose|c: int| 0 <= c < self.sessions@.len() && (#[trigger] self.sessions@[c]).id@ == id@;
                    assert(0 <= c < self.sessions@.len() && self.sessions@[c].id@ == id@);
                    if c != i {
                        assert(self.sessions@[c].id@ == self.sessions@[i as int].id@);
                    }
                }
                Ok(Some(self.sessions[i].copy()))
            },
            None => Ok(None),
        }
    }
}

/// Whether a session belongs to the optional project.
pub open spec fn in_project(s: Session, project: Option<Seq<char>>) -> bool {
    match project {
        Some(p) => opt_text(s.project) == Some(p),
        None => true,
    }
}

/// Sorted by descending update time (text order).
pub open spec fn newest_first(v: Seq<Session>) -> bool {
    forall|i: int, j: int| 0 <= i < j < v.len() ==> text_le((#[trigger] v[j]).updated_at@, (#[trigger] v[i]).updated_at@)
}

/// At most the first `n` entries.
pub open spec fn first_n<A>(s: Seq<A>, n: nat) -> Seq<A> {
    if s.len() <= n { s } else { s.take(n as int) }
}

/// The sessions in reverse order.
fn reversed(v: &Vec<Session>) -> (r: Vec<Session>)
    ensures
        r@ == v@.reverse(),
{
    let n = v.len();
    let mut r: Vec<Session> = Vec::new();
    let mut k: usize = 0;
    while k < n
        invariant
            k <= n == v@.len(),
            r@.len() == k,
            forall|z: int| 0 <= z < k ==> #[trigger] r@[z] == v@[n - 1 - z],
        decreases n - k,
    {
        r.push(v[n - 1 - k].copy());
        k += 1;
    }
    proof {
        assert(r@ =~= v@.reverse());
    }
    r
}

/// At most the first `n` entries of `v`.
pub(crate) fn keep_first<T>(v: Vec<T>, n: usize) -> (r: Vec<T>)
    ensures
        r@ == first_n(v@, n as nat),
{
    let mut v = v;
    if v.len() > n {
        v.truncate(n);
    }
    v
}

impl TranscriptTable {
    /// Sessions (of `project` when one is given), most recently updated
    /// first, at most `limit`.
    pub fn list_sessions(&self, project: Option<&str>, limit: usize) -> (r: IcmResult<Vec<Session>>)
        ensures
            r matches Ok(v) && session_listing(*self, opt_str(project), limit as nat, v@),
    {
        let ghost p = |s: Session| in_project(s, opt_str(project));
        let mut sel: Vec<Session> = Vec::new();
        let mut i: usize = 0;
        while i < self.sessions.len()
            invariant
                i <= self.sessions@.len(),
                p == (|s: Session| in_project(s, opt_str(project))),
                sel@ == self.sessions@.take(i as int).filter(p),
            decreases self.sessions.len() - i,
        {
            proof {
                crate::facts::lemma_filter_step(self.sessions@, i as int, p);
            }
            let s = &self.sessions[i];
            let keep = match project {
                Some(pr) => match &s.project {
                    Some(q) => crate::maintain::str_eq(pr, q),
                    None => false,
                },
                None => true,
            };
            if keep {
                sel.push(s.copy());
            }
            i += 1;
        }
        proof {
            assert(self.sessions@.take(self.sessions@.len() as int) =~= self.sessions@);
        }
        let asc = sort_by_text(sel);
        let ghost a = asc@;
        let desc = reversed(&asc);
        proof {
            a.lemma_reverse_to_multiset();
            assert forall|i: int, j: int| 0 <= i < j < desc@.len() implies text_le((#[trigger] desc@[j]).updated_at@, (#[trigger] desc@[i]).updated_at@) by {
                assert(desc@[j] == a[a.len() - 1 - j]);
                assert(desc@[i] == a[a.len() - 1 - i]);
                assert(text_le(a[a.len() - 1 - j].text_key(), a[a.len() - 1 - i].text_key()));
            }
        }
        let ghost all = desc@;
        let v = keep_first(desc, limit);
        proof {
            assert(all.to_multiset() == a.to_multiset());
            assert(newest_first(all));
            assert(v@ == first_n(all, limit as nat));
            assert(all.to_multiset() == self.sessions@.filter(|s: Session| in_project(s, opt_str(project))).to_multiset());
        }
        Ok(v)
    }

    /// Record a message in session `session_id` and answer its id. The
    /// content is cut to `MAX_MESSAGE_BYTES`, the tool name to
    /// `MAX_TOOL_NAME_BYTES` and the metadata to `MAX_METADATA_BYTES`; the
    /// session's update time becomes the message's time. A session that
    /// does not exist is `NotFound` and changes nothing.
    pub fn record_message(
        &mut self,
        session_id: &str,
        role: Role,
        content: &str,
        tool_name: Option<&str>,
        tokens: Option<i64>,
        metadata: Option<&str>,
    ) -> (r: IcmResult<String>)
        requires
            old(self).wf(),
        ensures
            final(self).wf(),
            record_message_effect(*old(self), *final(self), session_id@, role, content@, opt_str(tool_name), tokens, opt_str(metadata), r),
    {
        let key = owned(session_id);
        let k = match self.session_index(&key) {
            Some(k) => k,
            None => {
                let a = concat("session ", session_id);
                return Err(IcmError::NotFound(concat(a.as_str(), " does not exist")));
            },
        };
        let ts = now_rfc3339();
        let m = Message {
            id: new_ulid(),
            session_id: key,
            role,
            content: truncate_at_char_boundary(content, MAX_MESSAGE_BYTES),
            tool_name: cap_opt(tool_name, MAX_TOOL_NAME_BYTES),
            tokens,
            ts: ts.clone(),
            metadata: cap_opt(metadata, MAX_METADATA_BYTES),
        };
        let id = m.id.clone();
        let ghost old_s = self.sessions@;
        let ghost old_m = self.messages@;
        self.messages.push(m);
        let mut s = self.sessions[k].copy();
        s.updated_at = ts;
        self.sessions.set(k, s);
        proof {
            let t = self.sessions@;
            assert forall|i: int, j: int| 0 <= i < t.len() && 0 <= j < t.len() && i != j implies (#[trigger] t[i]).id@ != (#[trigger] t[j]).id@ by {
                assert(t[i].id == old_s[i].id && t[j].id == old_s[j].id);
            }
            let ms = self.messages@;
            assert forall|i: int| 0 <= i < ms.len() implies has_session(t, (#[trigger] ms[i]).session_id@) by {
                if i < old_m.len() {
                    assert(ms[i] == old_m[i]);
                    let w = choose|w: int| 0 <= w < old_s.len() && (#[trigger] old_s[w]).id@ == old_m[i].session_id@;
                    assert(t[w].id == old_s[w].id);
                } else {
                    assert(t[k as int].id == old_s[k as int].id);
                }
            }
        }
        Ok(id)
    }

    /// The messages of session `session_id` in time order, skipping the
    /// first `offset`, at most `limit`.
    pub fn list_session_messages(&self, session_id: &str, limit: usize, offset: usize) -> (r: IcmResult<Vec<Message>>)
        ensures
            r matches Ok(v) && message_page(*self, session_id@, limit as nat, offset as nat, v@),
    {
        let ghost p = in_session(session_id@);
        let key = owned(session_id);
        let mut sel: Vec<Message> = Vec::new();
        let mut i: usize = 0;
        while i < self.messages.len()
            invariant
                i <= self.messages@.len(),
                key@ == session_id@,
                p == in_session(session_id@),
                sel@ == self.messages@.take(i as int).filter(p),
            decreases self.messages.len() - i,
        {
            proof {
                crate::facts::lemma_filter_step(self.messages@, i as int, p);
            }
            if self.messages[i].session_id == key {
                sel.push(self.messages[i].copy());
            }
            i += 1;
        }
        proof {
            assert(self.messages@.take(self.messages@.len() as int) =~= self.messages@);
        }
        let all = sort_by_text(sel);
        let ghost alls = all@;
        let mut rest: Vec<Message> = Vec::new();
        let mut j: usize = offset;
        while j < all.len()
            invariant
                offset <= j <= all@.len() || (j == offset && offset > all@.len()),
                rest@ == all@.subrange(offset as int, j as int) || offset > all@.len(),
                offset > all@.len() ==> rest@.len() == 0,
            decreases all.len() - j,
        {
            rest.push(all[j].copy());
            proof {
                assert(all@.subrange(offset as int, j + 1) =~= all@.subrange(offset as int, j as int).push(all@[j as int]));
            }
            j += 1;
        }
        proof {
            if offset <= alls.len() {
                assert(alls.subrange(offset as int, alls.len() as int) =~= alls.skip(offset as int));
            } else {
                assert(rest@ =~= Seq::<Message>::empty());
            }
        }
        let v = keep_first(rest, limit);
        Ok(v)
    }

    /// The messages not of session `id`.
    fn messages_outside(&self, id: &String) -> (keep: Vec<Message>)
        ensures
            keep@ == self.messages@.filter(outside_session(id@)),
    {
        let ghost pm = outside_session(id@);
        let ghost om = self.messages@;
        let mut keep: Vec<Message> = Vec::new();
        let mut i: usize = 0;
        while i < self.messages.len()
            invariant
                i <= self.messages@.len(),
                om == self.messages@,
                pm == outside_session(id@),
                keep@ == om.take(i as int).filter(pm),
            decreases self.messages.len() - i,
        {
            proof {
                crate::facts::lemma_filter_step(om, i as int, pm);
            }
            if self.messages[i].session_id != *id {
                keep.push(self.messages[i].copy());
            }
            i += 1;
        }
        proof {
            assert(om.take(om.len() as int) =~= om);
        }
        keep
    }

    /// The messages of session `sid`.
pub open spec fn in_session(sid: Seq<char>) -> spec_fn(Message) -> bool {
    |m: Message| m.session_id@ == sid
}

/// The sessions other than `id`.
    fn sessions_other_than(&self, id: &String) -> (keep: Vec<Session>)
        ensures
            keep@ == self.sessions@.filter(other_session(id@)),
    {
        let ghost ps = other_session(id@);
        let ghost os = self.sessions@;
        let mut keep: Vec<Session> = Vec::new();
        let mut j: usize = 0;
        while j < self.sessions.len()
            invariant
                j <= self.sessions@.len(),
                os == self.sessions@,
                ps == other_session(id@),
                keep@ == os.take(j as int).filter(ps),
            decreases self.sessions.len() - j,
        {
            proof {
                crate::facts::lemma_filter_step(os, j as int, ps);
            }
            if self.sessions[j].id != *id {
                keep.push(self.sessions[j].copy());
            }
            j += 1;
        }
        proof {
            assert(os.take(os.len() as int) =~= os);
        }
        keep
    }

    /// Delete session `id` and its messages; a missing session is no error.
    pub fn forget_session(&mut self, id: &str) -> (r: IcmResult<()>)
        requires
            old(self).wf(),
        ensures
            final(self).wf(),
            forget_session_effect(*old(self), *final(self), id@, r),
    {
        let key = owned(id);
        let ghost om = self.messages@;
        let ghost os = self.sessions@;
        let keep_m = self.messages_outside(&key);
        let keep_s = self.sessions_other_than(&key);
        self.messages = keep_m;
        self.sessions = keep_s;
        proof {
            lemma_forget_keeps_wf(os, om, id@);
        }
        Ok(())
    }
}

/// The messages of session `sid`.
pub open spec fn in_session(sid: Seq<char>) -> spec_fn(Message) -> bool {
    |m: Message| m.session_id@ == sid
}

/// The messages not of session `id`.
pub open spec fn outside_session(id: Seq<char>) -> spec_fn(Message) -> bool {
    |m: Message| m.session_id@ != id
}

/// The sessions other than `id`.
pub open spec fn other_session(id: Seq<char>) -> spec_fn(Session) -> bool {
    |s: Session| s.id@ != id
}

/// Dropping a session and its messages keeps the tables consistent.
proof fn lemma_forget_keeps_wf(os: Seq<Session>, om: Seq<Message>, id: Seq<char>)
    requires
        transcripts_wf(os, om),
    ensures
        transcripts_wf(os.filter(other_session(id)), om.filter(outside_session(id))),
{
    let ps = other_session(id);
    let pm = outside_session(id);
    let t = os.filter(ps);
    let ms = om.filter(pm);
    crate::graph::lemma_filter_pairwise(os, ps, |a: Session, b: Session| a.id@ != b.id@);
    assert forall|a: int| 0 <= a < ms.len() implies has_session(t, (#[trigger] ms[a]).session_id@) by {
        assert(ms.contains(ms[a]));
        om.lemma_filter_contains_rev(pm, ms[a]);
        om.lemma_filter_pred(pm, a);
        let w = choose|w: int| 0 <= w < om.len() && om[w] == ms[a];
        let k = choose|k: int| 0 <= k < os.len() && (#[trigger] os[k]).id@ == om[w].session_id@;
        os.lemma_filter_contains(ps, k);
        let n = choose|n: int| 0 <= n < t.len() && t[n] == os[k];
    }
}

/// What SQLite's FTS5 ranks for `query` over a table holding `texts` (row
/// `i` holding `texts[i]`): the matching rows best first, or `None` when
/// the query is not valid FTS5 syntax.
pub uninterp spec fn fts5_ranking(query: Seq<char>, texts: Seq<Seq<char>>) -> Option<Seq<usize>>;

/// The view of an optional vector.
pub open spec fn opt_seq(r: Option<Vec<usize>>) -> Option<Seq<usize>> {
    match r {
        Some(v) => Some(v@),
        None => None,
    }
}

/// Filtering keeps a sequence free of repeats.
pub proof fn lemma_filter_no_duplicates<A>(s: Seq<A>, p: spec_fn(A) -> bool)
    requires
        s.no_duplicates(),
    ensures
        s.filter(p).no_duplicates(),
    decreases s.len(),
{
    reveal(Seq::filter);
    if s.len() > 0 {
        let d = s.drop_last();
        assert(d.no_duplicates()) by {
            assert forall|i: int, j: int| 0 <= i < d.len() && 0 <= j < d.len() && i != j implies d[i] != d[j] by {
                assert(d[i] == s[i] && d[j] == s[j]);
            }
        }
        lemma_filter_no_duplicates(d, p);
        if p(s.last()) {
            let f = d.filter(p);
            if f.contains(s.last()) {
                d.lemma_filter_contains_rev(p, s.last());
                let k = choose|k: int| 0 <= k < d.len() && d[k] == s.last();
                assert(s[k] == s[s.len() - 1]);
            }
            assert forall|i: int, j: int| 0 <= i < f.push(s.last()).len() && 0 <= j < f.push(s.last()).len() && i != j
                implies f.push(s.last())[i] != f.push(s.last())[j] by {
                if i < f.len() && j < f.len() {
                } else if i < f.len() {
                    assert(f.contains(f[i]));
                } else {
                    assert(f.contains(f[j]));
                }
            }
        }
    }
}

/// `v` lists distinct message rows: each hit is the message at its own
/// row of `msgs`, no row twice.
pub open spec fn distinct_rows(msgs: Seq<Message>, v: Seq<TranscriptHit>) -> bool {
    exists|sel: Seq<usize>| {
        &&& sel.no_duplicates()
        &&& sel.len() == v.len()
        &&& forall|k: int| 0 <= k < v.len() ==> (#[trigger] sel[k]) < msgs.len() && v[k].message == msgs[sel[k] as int]
    }
}

/// Runs an FTS5 `MATCH` of `query` over an in-memory SQLite FTS5 table
/// (rusqlite's bundled SQLite) holding `texts`, row `i` being `texts[i]`,
/// and returns the matching rows ordered by `bm25`, best first; `None` when
/// SQLite reports an error, which for a query is malformed FTS5 syntax. The
/// ranking is named, not described; what is stated of it is that it lists
/// rows of the table (below `texts.len()`), each at most once, as rowids
/// are unique.
#[verifier::external_body]
pub(crate) fn fts5_rank(query: &str, texts: &Vec<String>) -> (r: Option<Vec<usize>>)
    ensures
        opt_seq(r) == fts5_ranking(query@, text_views(texts@)),
        r matches Some(v) ==> v@.no_duplicates() && forall|i: int| 0 <= i < v@.len() ==> #[trigger] v@[i] < texts@.len(),
{
    let c = rusqlite::Connection::open_in_memory().ok()?;
    c.execute_batch("CREATE VIRTUAL TABLE t USING fts5(content)").ok()?;
    for (i, s) in texts.iter().enumerate() {
        c.execute("INSERT INTO t(rowid, content) VALUES (?1, ?2)", (i as i64, s)).ok()?;
    }
    let mut st = c.prepare("SELECT rowid FROM t WHERE t MATCH ?1 ORDER BY bm25(t)").ok()?;
    let rows = st.query_map([query], |r| r.get::<_, i64>(0)).ok()?;
    rows.map(|x| x.map(|v| v as usize)).collect::<Result<Vec<usize>, _>>().ok()
}

/// Whether message `m` falls within the optional session and project.
pub open spec fn in_scope(m: Message, sessions: Seq<Session>, sid: Option<Seq<char>>, project: Option<Seq<char>>) -> bool {
    &&& (sid matches Some(x) ==> m.session_id@ == x)
    &&& (project matches Some(p) ==> (session_with_id(sessions, m.session_id@) matches Some(s) && opt_text(s.project) == Some(p)))
}

/// The ranked message indices that fall within the scope.
pub open spec fn scoped(rank: Seq<usize>, msgs: Seq<Message>, sessions: Seq<Session>, sid: Option<Seq<char>>, project: Option<Seq<char>>) -> Seq<usize> {
    rank.filter(in_scope_row(msgs, sessions, sid, project))
}

/// Whether a row index names a message within the scope.
pub open spec fn in_scope_row(msgs: Seq<Message>, sessions: Seq<Session>, sid: Option<Seq<char>>, project: Option<Seq<char>>) -> spec_fn(usize) -> bool {
    |i: usize| i < msgs.len() && in_scope(msgs[i as int], sessions, sid, project)
}

/// The contents of the messages.
pub open spec fn contents(msgs: Seq<Message>) -> Seq<Seq<char>> {
    Seq::new(msgs.len(), |i: int| msgs[i].content@)
}

/// `v` lists, for the messages at `sel` in order, each message with its
/// session, at most `limit` of them.
pub open spec fn hits_for(sel: Seq<usize>, msgs: Seq<Message>, sessions: Seq<Session>, limit: nat, v: Seq<TranscriptHit>) -> bool {
    &&& v.len() == if sel.len() <= limit { sel.len() } else { limit }
    &&& forall|k: int| 0 <= k < v.len() ==> {
        &&& (#[trigger] v[k]).message == msgs[sel[k] as int]
        &&& session_with_id(sessions, msgs[sel[k] as int].session_id@) == Some(v[k].session)
    }
}

impl TranscriptTable {
    /// Full-text search of the message contents in FTS5 query syntax
    /// (terms, `OR`, phrases in quotes...), best match first, restricted to
    /// a session and/or a project when given, at most `limit` hits. A
    /// malformed query finds nothing.
    pub fn search_transcripts(&self, query: &str, session_id: Option<&str>, project: Option<&str>, limit: usize) -> (r: IcmResult<Vec<TranscriptHit>>)
        requires
            self.wf(),
        ensures
            r matches Ok(v) && search_result(*self, query@, opt_str(session_id), opt_str(project), limit as nat, v@),
            r matches Ok(v) ==> distinct_rows(self.messages@, v@),
    {
        let n = self.messages.len();
        let mut texts: Vec<String> = Vec::new();
        let mut i: usize = 0;
        while i < n
            invariant
                i <= n == self.messages@.len(),
                texts@.len() == i,
                forall|k: int| 0 <= k < i ==> (#[trigger] texts@[k])@ == self.messages@[k].content@,
            decreases n - i,
        {
            texts.push(self.messages[i].content.clone());
            i += 1;
        }
        proof {
            assert(text_views(texts@) =~= contents(self.messages@));
        }
        let rank = match fts5_rank(query, &texts) {
            Some(v) => v,
            None => {
                proof {
                    assert(Seq::<usize>::empty().no_duplicates());
                }
                return Ok(Vec::new());
            },
        };
        let v = self.hits_from_ranking(&rank, session_id, project, limit);
        proof {
            let p = in_scope_row(self.messages@, self.sessions@, opt_str(session_id), opt_str(project));
            let sel = scoped(rank@, self.messages@, self.sessions@, opt_str(session_id), opt_str(project));
            lemma_filter_no_duplicates(rank@, p);
            let t = sel.take(v@.len() as int);
            assert forall|k: int| 0 <= k < v@.len() implies (#[trigger] t[k]) < self.messages@.len() && v@[k].message == self.messages@[t[k] as int] by {
                rank@.lemma_filter_pred(p, k);
            }
            assert(t.no_duplicates());
        }
        Ok(v)
    }

    /// The hits for a ranking `rank` of the message rows, best first: the
    /// rows in range that fall within the optional session and project, in
    /// the order of `rank`, each with its session, at most `limit`.
    pub fn hits_from_ranking(&self, rank: &Vec<usize>, session_id: Option<&str>, project: Option<&str>, limit: usize) -> (v: Vec<TranscriptHit>)
        requires
            self.wf(),
        ensures
            hits_for(scoped(rank@, self.messages@, self.sessions@, opt_str(session_id), opt_str(project)), self.messages@, self.sessions@, limit as nat, v@),
    {
        let n = self.messages.len();
        let ghost sid = opt_str(session_id);
        let ghost pj = opt_str(project);
        let ghost p = in_scope_row(self.messages@, self.sessions@, sid, pj);
        let mut sel: Vec<usize> = Vec::new();
        let mut j: usize = 0;
        while j < rank.len()
            invariant
                j <= rank@.len(),
                n == self.messages@.len(),
                self.wf(),
                sid == opt_str(session_id),
                pj == opt_str(project),
                p == in_scope_row(self.messages@, self.sessions@, sid, pj),
                sel@ == rank@.take(j as int).filter(p),
            decreases rank.len() - j,
        {
            proof {
                crate::facts::lemma_filter_step(rank@, j as int, p);
            }
            let ix = rank[j];
            if ix < n {
                let m = &self.messages[ix];
                let sid_ok = match session_id {
                    Some(x) => crate::maintain::str_eq(x, &m.session_id),
                    None => true,
                };
                let proj_ok = match project {
                    Some(pr) => match self.session_index(&m.session_id) {
                        Some(k) => {
                            proof {
                                let c = choose|c: int| 0 <= c < self.sessions@.len() && (#[trigger] self.sessions@[c]).id@ == m.session_id@;
                                assert(0 <= c < self.sessions@.len() && self.sessions@[c].id@ == m.session_id@);
                                if c != k {
                                    assert(self.sessions@[c].id@ == self.sessions@[k as int].id@);
                                }
                            }
                            match &self.sessions[k].project {
                                Some(q) => crate::maintain::str_eq(pr, q),
                                None => false,
                            }
                        },
                        None => false,
                    },
                    None => true,
                };
                if sid_ok && proj_ok {
                    sel.push(ix);
                }
            }
            j += 1;
        }
        proof {
            assert(rank@.take(rank@.len() as int) =~= rank@);
        }
        let cap = if sel.len() <= limit { sel.len() } else { limit };
        let mut hits: Vec<TranscriptHit> = Vec::new();
        let mut k: usize = 0;
        while k < cap
            invariant
                k <= cap <= sel@.len(),
                cap == if sel@.len() <= limit { sel@.len() } else { limit as nat },
                self.wf(),
                forall|z: int| 0 <= z < sel@.len() ==> #[trigger] sel@[z] < self.messages@.len(),
                hits@.len() == k,
                forall|z: int| 0 <= z < k ==> {
                    &&& (#[trigger] hits@[z]).message == self.messages@[sel@[z] as int]
                    &&& session_with_id(self.sessions@, self.messages@[sel@[z] as int].session_id@) == Some(hits@[z].session)
                },
            decreases cap - k,
        {
            let m = &self.messages[sel[k]];
            proof {
                assert(has_session(self.sessions@, m.session_id@));
            }
            let si = match self.session_index(&m.session_id) {
                Some(x) => x,
                None => {
                    proof {
                        assert(false);
                    }
                    0
                },
            };
            proof {
                let c = choose|c: int| 0 <= c < self.sessions@.len() && (#[trigger] self.sessions@[c]).id@ == m.session_id@;
                assert(0 <= c < self.sessions@.len() && self.sessions@[c].id@ == m.session_id@);
                if c != si {
                    assert(self.sessions@[c].id@ == self.sessions@[si as int].id@);
                }
            }
            hits.push(TranscriptHit { message: m.copy(), session: self.sessions[si].copy() });
            k += 1;
        }
        hits
    }
}

/// `v` counts `ks`: one entry per distinct text with its number of
/// occurrences, most frequent first.
pub open spec fn counted(ks: Seq<Seq<char>>, v: Seq<(String, usize)>) -> bool {
    &&& Seq::new(v.len(), |i: int| v[i].0@).no_duplicates()
    &&& Seq::new(v.len(), |i: int| v[i].0@).to_set() == ks.to_set()
    &&& forall|k: int| 0 <= k < v.len() ==> (#[trigger] v[k]).1 == occurrences(ks, v[k].0@)
    &&& forall|a: int, b: int| 0 <= a < b < v.len() ==> (#[trigger] v[a]).1 >= (#[trigger] v[b]).1
}

/// Most sessions listed among the busiest.
pub const TOP_SESSIONS: usize = 10;

/// The role names of the messages.
pub open spec fn role_names(m: Seq<Message>) -> Seq<Seq<char>> {
    Seq::new(m.len(), |i: int| role_name(m[i].role))
}

/// The agents of the sessions.
pub open spec fn agent_names(s: Seq<Session>) -> Seq<Seq<char>> {
    Seq::new(s.len(), |i: int| s[i].agent@)
}

/// The session ids of the messages.
pub open spec fn message_sessions(m: Seq<Message>) -> Seq<Seq<char>> {
    Seq::new(m.len(), |i: int| m[i].session_id@)
}

/// Total length of the message contents, in characters.
pub open spec fn content_chars(m: Seq<Message>) -> nat
    decreases m.len(),
{
    if m.len() == 0 {
        0
    } else {
        content_chars(m.drop_last()) + m.last().content@.len()
    }
}

/// `x` is the earliest message time (text order).
pub open spec fn earliest(m: Seq<Message>, x: Seq<char>) -> bool {
    &&& exists|i: int| 0 <= i < m.len() && (#[trigger] m[i]).ts@ == x
    &&& forall|j: int| 0 <= j < m.len() ==> text_le(x, (#[trigger] m[j]).ts@)
}

/// `x` is the latest message time (text order).
pub open spec fn latest(m: Seq<Message>, x: Seq<char>) -> bool {
    &&& exists|i: int| 0 <= i < m.len() && (#[trigger] m[i]).ts@ == x
    &&& forall|j: int| 0 <= j < m.len() ==> text_le((#[trigger] m[j]).ts@, x)
}

/// `(count, name)` pairs as `(name, count)`.
pub(crate) fn name_first(g: Vec<(u64, String)>, ks: Ghost<Seq<Seq<char>>>) -> (v: Vec<(String, usize)>)
    requires
        tallies(ks@, g@),
        sorted_by_count_desc(g@),
        forall|k: int| 0 <= k < g@.len() ==> #[trigger] g@[k].0 <= usize::MAX,
    ensures
        counted(ks@, v@),
        v@.len() == g@.len(),
{
    let mut v: Vec<(String, usize)> = Vec::new();
    let mut i: usize = 0;
    while i < g.len()
        invariant
            i <= g@.len(),
            v@.len() == i,
            forall|k: int| 0 <= k < g@.len() ==> #[trigger] g@[k].0 <= usize::MAX,
            forall|k: int| 0 <= k < i ==> (#[trigger] v@[k]).0@ == g@[k].1@ && v@[k].1 == g@[k].0,
        decreases g.len() - i,
    {
        v.push((g[i].1.clone(), g[i].0 as usize));
        i += 1;
    }
    proof {
        assert(Seq::new(v@.len(), |i: int| v@[i].0@) =~= tally_names(g@));
        assert forall|a: int, b: int| 0 <= a < b < v@.len() implies (#[trigger] v@[a]).1 >= (#[trigger] v@[b]).1 by {
            assert(g@[a].0 >= g@[b].0);
        }
    }
    v
}

/// Counts never exceed the number of texts counted.
pub(crate) proof fn lemma_tally_bounded(ks: Seq<Seq<char>>, g: Seq<(u64, String)>)
    requires
        tallies(ks, g),
    ensures
        forall|k: int| 0 <= k < g.len() ==> #[trigger] g[k].0 <= ks.len(),
{
    assert forall|k: int| 0 <= k < g.len() implies #[trigger] g[k].0 <= ks.len() by {
        ks.lemma_filter_len(|x: Seq<char>| x == g[k].1@);
    }
}

impl TranscriptTable {
    /// Figures over all transcripts: numbers of sessions and messages, the
    /// total length of the contents, messages per role, sessions per agent,
    /// the ten sessions with most messages, and the earliest and latest
    /// message times.
    #[verifier::rlimit(40)]
    pub fn transcript_stats(&self) -> (r: IcmResult<TranscriptStats>)
        ensures
            r matches Ok(st) && stats_of_transcripts(*self, st),
    {
        let m = &self.messages;
        let mut roles: Vec<String> = Vec::new();
        let mut sids: Vec<String> = Vec::new();
        let mut total: u64 = 0;
        let mut saturated = false;
        let mut oldest: Option<usize> = None;
        let mut newest: Option<usize> = None;
        let mut i: usize = 0;
        while i < m.len()
            invariant
                i <= m@.len(),
                roles@.len() == i,
                sids@.len() == i,
                forall|k: int| 0 <= k < i ==> (#[trigger] roles@[k])@ == role_name(m@[k].role),
                forall|k: int| 0 <= k < i ==> (#[trigger] sids@[k])@ == m@[k].session_id@,
                !saturated ==> total == content_chars(m@.take(i as int)),
                saturated ==> total == u64::MAX && content_chars(m@.take(i as int)) > u64::MAX,
                (oldest is None <==> i == 0),
                (newest is None <==> i == 0),
                oldest matches Some(o) ==> o < i && forall|j: int| 0 <= j < i ==> text_le(m@[o as int].ts@, (#[trigger] m@[j]).ts@),
                newest matches Some(o) ==> o < i && forall|j: int| 0 <= j < i ==> text_le((#[trigger] m@[j]).ts@, m@[o as int].ts@),
            decreases m.len() - i,
        {
            proof {
                assert(m@.take(i + 1).drop_last() =~= m@.take(i as int));
                assert(m@.take(i + 1).last() == m@[i as int]);
            }
            roles.push(owned(m[i].role.as_str()));
            sids.push(m[i].session_id.clone());
            let len = chars_of(m[i].content.as_str()).len() as u64;
            if !saturated {
                if total > u64::MAX - len {
                    total = u64::MAX;
                    saturated = true;
                } else {
                    total = total + len;
                }
            }
            let ci = chars_of(m[i].ts.as_str());
            match oldest {
                None => {
                    proof {
                        crate::order::lemma_text_le_refl(m@[i as int].ts@);
                    }
                    oldest = Some(i);
                },
                Some(o) => {
                    let co = chars_of(m[o].ts.as_str());
                    if !crate::order::text_le_exec(&co, &ci) {
                        proof {
                            crate::order::lemma_text_le_total(co@, ci@);
                            crate::order::lemma_text_le_refl(ci@);
                            assert forall|j: int| 0 <= j < i + 1 implies text_le(ci@, (#[trigger] m@[j]).ts@) by {
                                if j < i {
                                    crate::order::lemma_text_le_trans(ci@, co@, m@[j].ts@);
                                }
                            }
                        }
                        oldest = Some(i);
                    }
                },
            }
            match newest {
                None => {
                    proof {
                        crate::order::lemma_text_le_refl(m@[i as int].ts@);
                    }
                    newest = Some(i);
                },
                Some(o) => {
                    let co = chars_of(m[o].ts.as_str());
                    if !crate::order::text_le_exec(&ci, &co) {
                        proof {
                            crate::order::lemma_text_le_total(co@, ci@);
                            crate::order::lemma_text_le_refl(ci@);
                            assert forall|j: int| 0 <= j < i + 1 implies text_le((#[trigger] m@[j]).ts@, ci@) by {
                                if j < i {
                                    crate::order::lemma_text_le_trans(m@[j].ts@, co@, ci@);
                                }
                            }
                        }
                        newest = Some(i);
                    }
                },
            }
            i += 1;
        }
        proof {
            assert(m@.take(m@.len() as int) =~= m@);
            assert(text_views(roles@) =~= role_names(m@));
            assert(text_views(sids@) =~= message_sessions(m@));
        }
        let mut agents: Vec<String> = Vec::new();
        let mut j: usize = 0;
        while j < self.sessions.len()
            invariant
                j <= self.sessions@.len(),
                agents@.len() == j,
                forall|k: int| 0 <= k < j ==> (#[trigger] agents@[k])@ == self.sessions@[k].agent@,
            decreases self.sessions.len() - j,
        {
            agents.push(self.sessions[j].agent.clone());
            j += 1;
        }
        proof {
            assert(text_views(agents@) =~= agent_names(self.sessions@));
        }
        let gr = tally(&roles);
        let ga = tally(&agents);
        let gs = tally(&sids);
        proof {
            lemma_tally_bounded(role_names(m@), gr@);
            lemma_tally_bounded(agent_names(self.sessions@), ga@);
            lemma_tally_bounded(message_sessions(m@), gs@);
        }
        let by_role = name_first(gr, Ghost(role_names(m@)));
        let by_agent = name_first(ga, Ghost(agent_names(self.sessions@)));
        let all = name_first(gs, Ghost(message_sessions(m@)));
        let ghost alls = all@;
        let top = keep_first(all, TOP_SESSIONS);
        Ok(TranscriptStats {
            total_sessions: self.sessions.len(),
            total_messages: m.len(),
            total_bytes: total,
            by_role,
            by_agent,
            top_sessions: top,
            oldest: match oldest {
                Some(o) => Some(m[o].ts.clone()),
                None => None,
            },
            newest: match newest {
                Some(o) => Some(m[o].ts.clone()),
                None => None,
            },
        })
    }
}

/// What `create_session` does to the tables.
pub open spec fn create_session_effect(before: TranscriptTable, after: TranscriptTable, agent: Seq<char>, project: Option<Seq<char>>, metadata: Option<Seq<char>>, r: IcmResult<String>) -> bool {
    &&& after.messages@ == before.messages@
    &&& r is Err ==> after.sessions@ == before.sessions@ && (r matches Err(e) && e is Database)
    &&& r is Err ==> exists|k: int| 0 <= k < before.sessions@.len() && (#[trigger] before.sessions@[k]).id@.len() == 26
    &&& r matches Ok(id) ==> exists|s: Session| {
        &&& after.sessions@ == before.sessions@.push(s)
        &&& s.id@ == id@
        &&& s.agent@ == agent
        &&& opt_text(s.project) == project
        &&& capped(metadata, MAX_METADATA_BYTES as nat, s.metadata)
        &&& s.started_at == s.updated_at
        &&& !has_session(before.sessions@, id@)
    }
}

/// What `ensure_session` does to the tables.
pub open spec fn ensure_session_effect(before: TranscriptTable, after: TranscriptTable, id: Seq<char>, agent: Seq<char>, project: Option<Seq<char>>, metadata: Option<Seq<char>>, r: IcmResult<String>) -> bool {
    &&& after.messages@ == before.messages@
    &&& r matches Ok(x) && x@ == id
    &&& has_session(before.sessions@, id) ==> after.sessions@ == before.sessions@
    &&& !has_session(before.sessions@, id) ==> exists|s: Session| {
        &&& after.sessions@ == before.sessions@.push(s)
        &&& s.id@ == id
        &&& s.agent@ == agent
        &&& opt_text(s.project) == project
        &&& match metadata {
            Some(m) => capped(Some(m), MAX_METADATA_BYTES as nat, s.metadata),
            None => s.metadata matches Some(x) && x@ == "{}"@,
        }
    }
}

/// What `record_message` does to the tables.
pub open spec fn record_message_effect(before: TranscriptTable, after: TranscriptTable, session_id: Seq<char>, role: Role, content: Seq<char>, tool_name: Option<Seq<char>>, tokens: Option<i64>, metadata: Option<Seq<char>>, r: IcmResult<String>) -> bool {
    &&& r is Ok <==> has_session(before.sessions@, session_id)
    &&& r is Err ==> after.sessions@ == before.sessions@ && after.messages@ == before.messages@
        && (r matches Err(IcmError::NotFound(m)) && m@ == "session "@ + session_id + " does not exist"@)
    &&& r matches Ok(id) ==> exists|m: Message, k: int| {
        &&& after.messages@ == before.messages@.push(m)
        &&& m.id@ == id@
        &&& id@.len() == 26
        &&& m.session_id@ == session_id
        &&& m.role == role
        &&& m.content@ == cut_to_bytes(content, MAX_MESSAGE_BYTES as nat)
        &&& capped(tool_name, MAX_TOOL_NAME_BYTES as nat, m.tool_name)
        &&& m.tokens == tokens
        &&& capped(metadata, MAX_METADATA_BYTES as nat, m.metadata)
        &&& 0 <= k < before.sessions@.len()
        &&& before.sessions@[k].id@ == session_id
        &&& after.sessions@ == before.sessions@.update(k, Session { updated_at: m.ts, ..before.sessions@[k] })
    }
}

/// What `forget_session` does to the tables.
pub open spec fn forget_session_effect(before: TranscriptTable, after: TranscriptTable, id: Seq<char>, r: IcmResult<()>) -> bool {
    &&& r is Ok
    &&& after.messages@ == before.messages@.filter(outside_session(id))
    &&& after.sessions@ == before.sessions@.filter(other_session(id))
}

/// `v` is the session listing: the sessions of `project` (all when none
/// is given), most recently updated first, at most `limit`.
pub open spec fn session_listing(t: TranscriptTable, project: Option<Seq<char>>, limit: nat, v: Seq<Session>) -> bool {
    exists|all: Seq<Session>| {
        &&& all.to_multiset() == t.sessions@.filter(|s: Session| in_project(s, project)).to_multiset()
        &&& newest_first(all)
        &&& v == first_n(all, limit)
    }
}

/// `v` is a page of session `sid`'s messages in time order: `limit` of
/// them after skipping `offset`.
pub open spec fn message_page(t: TranscriptTable, sid: Seq<char>, limit: nat, offset: nat, v: Seq<Message>) -> bool {
    exists|all: Seq<Message>| {
        &&& all.to_multiset() == t.messages@.filter(in_session(sid)).to_multiset()
        &&& sorted_by_text(all)
        &&& v == first_n(if offset <= all.len() { all.skip(offset as int) } else { Seq::empty() }, limit)
    }
}

/// `v` is what a search for `query` finds: nothing for a malformed query,
/// else the FTS5 ranking of the contents restricted to the scope, each
/// message with its session, at most `limit`.
pub open spec fn search_result(t: TranscriptTable, query: Seq<char>, sid: Option<Seq<char>>, project: Option<Seq<char>>, limit: nat, v: Seq<TranscriptHit>) -> bool {
    match fts5_ranking(query, contents(t.messages@)) {
        None => v.len() == 0,
        Some(rank) => hits_for(scoped(rank, t.messages@, t.sessions@, sid, project), t.messages@, t.sessions@, limit, v),
    }
}

/// `st` sums up the transcript tables.
pub open spec fn stats_of_transcripts(t: TranscriptTable, st: TranscriptStats) -> bool {
    &&& st.total_sessions == t.sessions@.len()
    &&& st.total_messages == t.messages@.len()
    &&& st.total_bytes == if content_chars(t.messages@) <= u64::MAX { content_chars(t.messages@) } else { u64::MAX as nat }
    &&& counted(role_names(t.messages@), st.by_role@)
    &&& counted(agent_names(t.sessions@), st.by_agent@)
    &&& exists|all: Seq<(String, usize)>| counted(message_sessions(t.messages@), all) && st.top_sessions@ == first_n(all, TOP_SESSIONS as nat)
    &&& (st.oldest is None <==> t.messages@.len() == 0)
    &&& (st.newest is None <==> t.messages@.len() == 0)
    &&& (st.oldest matches Some(x) ==> earliest(t.messages@, x@))
    &&& (st.newest matches Some(x) ==> latest(t.messages@, x@))
}

} // verus!
