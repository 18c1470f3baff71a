//! Versioned facts: at most one active value per `(entity, key)` slot; a
//! new value supersedes the active one and keeps it as history.
use vstd::prelude::*;
use crate::clock::{new_ulid, now_rfc3339};
use crate::like::{like_match, like_matches};
use crate::model::{Fact, FactsStats, IcmError, IcmResult, invalid_input, readonly_db, readonly_db_error};
use crate::order::{TextKeyed, sort_by_text, sorted_by_text, text_le};
use crate::store::SqliteStore;
use crate::text::{chars_of, owned};
use crate::tally::{tally, text_views};
use crate::transcript::{counted, first_n, keep_first, lemma_tally_bounded, name_first};

verus! {

broadcast use vstd::seq_lib::group_seq_properties;

/// Row `f` belongs to the slot `(e, k)`.
pub open spec fn in_slot(f: Fact, e: Seq<char>, k: Seq<char>) -> bool {
    f.entity@ == e && f.key@ == k
}

/// Row `f` is the active row of the slot `(e, k)`.
pub open spec fn active_in(f: Fact, e: Seq<char>, k: Seq<char>) -> bool {
    in_slot(f, e, k) && f.superseded_at is None
}

/// No slot has two active rows.
pub open spec fn facts_wf(t: Seq<Fact>) -> bool {
    forall|i: int, j: int|
        0 <= i < t.len() && 0 <= j < t.len() && i != j && (#[trigger] t[i]).superseded_at is None
            && (#[trigger] t[j]).superseded_at is None ==> !(t[i].entity@ == t[j].entity@
            && t[i].key@ == t[j].key@)
}

/// The active row of slot `(e, k)`, if any.
pub open spec fn active_fact(t: Seq<Fact>, e: Seq<char>, k: Seq<char>) -> Option<Fact> {
    if exists|i: int| 0 <= i < t.len() && active_in(#[trigger] t[i], e, k) {
        Some(t[choose|i: int| 0 <= i < t.len() && active_in(#[trigger] t[i], e, k)])
    } else {
        None
    }
}

/// The rows of slot `(e, k)`, oldest first.
pub open spec fn slot_rows(t: Seq<Fact>, e: Seq<char>, k: Seq<char>) -> Seq<Fact> {
    t.filter(|f: Fact| in_slot(f, e, k))
}

/// `f` is `before` marked superseded, every other field kept.
pub open spec fn superseded_copy(before: Fact, f: Fact) -> bool {
    &&& f.superseded_at is Some
    &&& f.id == before.id
    &&& f.entity == before.entity
    &&& f.key == before.key
    &&& f.value == before.value
    &&& f.source == before.source
    &&& f.created_at == before.created_at
}

/// Which active rows `list_facts` returns: those of entity `e`, with a key
/// matching the `LIKE` pattern `prefix%` when a non-empty prefix is given.
pub open spec fn listed(f: Fact, e: Seq<char>, prefix: Option<Seq<char>>) -> bool {
    &&& f.entity@ == e
    &&& f.superseded_at is None
    &&& match prefix {
        Some(p) => p.len() == 0 || like_match(p.push('%'), f.key@, true, false),
        None => true,
    }
}

impl TextKeyed for Fact {
    open spec fn text_key(&self) -> Seq<char> {
        self.key@
    }

    fn key_chars(&self) -> (k: Vec<char>) {
        chars_of(self.key.as_str())
    }
}

/// Only the facts may have changed.
pub open spec fn facts_only(before: SqliteStore, after: SqliteStore) -> bool {
    &&& after.readonly == before.readonly
    &&& after.memories.rows@ == before.memories.rows@
    &&& after.graph == before.graph
    &&& after.transcripts == before.transcripts
}

/// Index of the active row of slot `(e, k)`.
fn find_active(t: &Vec<Fact>, e: &String, k: &String) -> (r: Option<usize>)
    ensures
        r matches Some(i) ==> i < t.len() && active_in(t@[i as int], e@, k@),
        r is None ==> forall|i: int| 0 <= i < t.len() ==> !active_in(#[trigger] t@[i], e@, k@),
{
    let mut i: usize = 0;
    while i < t.len()
        invariant
            i <= t.len(),
            forall|j: int| 0 <= j < i ==> !active_in(#[trigger] t@[j], e@, k@),
        decreases t.len() - i,
    {
        if t[i].superseded_at.is_none() && t[i].entity == *e && t[i].key == *k {
            return Some(i);
        }
        i += 1;
    }
    None
}

/// What `set_fact(e, k, v, s)` does to the rows, answering `id`: re-asserting
/// the active value changes nothing and answers the active row's id;
/// otherwise the active row (if any) is marked superseded and a new active
/// row is appended, whose id is answered.
pub open spec fn set_fact_effect(
    before: Seq<Fact>,
    after: Seq<Fact>,
    e: Seq<char>,
    k: Seq<char>,
    v: Seq<char>,
    s: Seq<char>,
    id: Seq<char>,
) -> bool {
    if active_fact(before, e, k) is Some && active_fact(before, e, k).unwrap().value@ == v {
        after == before && id == active_fact(before, e, k).unwrap().id@
    } else {
        &&& after.len() == before.len() + 1
        &&& in_slot(after.last(), e, k)
        &&& after.last().value@ == v
        &&& after.last().source@ == s
        &&& after.last().superseded_at is None
        &&& after.last().id@ == id
        &&& forall|j: int| 0 <= j < before.len() ==> (#[trigger] before[j]).id@ != id
        &&& forall|j: int|
            0 <= j < before.len() ==> if active_in(#[trigger] before[j], e, k) {
                superseded_copy(before[j], after[j])
            } else {
                after[j] == before[j]
            }
    }
}

/// One step of `filter` over a growing prefix.
pub proof fn lemma_filter_step<A>(s: Seq<A>, i: int, p: spec_fn(A) -> bool)
    requires
        0 <= i < s.len(),
    ensures
        s.take(i + 1).filter(p) == if p(s[i]) {
            s.take(i).filter(p).push(s[i])
        } else {
            s.take(i).filter(p)
        },
{
    reveal(Seq::filter);
    assert(s.take(i + 1).drop_last() =~= s.take(i));
    assert(s.take(i + 1).last() == s[i]);
}

/// The active row of a slot is the unique one found by index.
proof fn lemma_active_fact_at(t: Seq<Fact>, e: Seq<char>, k: Seq<char>, i: int)
    requires
        facts_wf(t),
        0 <= i < t.len(),
        active_in(t[i], e, k),
    ensures
        active_fact(t, e, k) == Some(t[i]),
{
    let c = choose|c: int| 0 <= c < t.len() && active_in(#[trigger] t[c], e, k);
    assert(0 <= c < t.len() && active_in(t[c], e, k));
    if c != i {
        assert(t[i].superseded_at is None && t[c].superseded_at is None);
    }
}

/// `v` is already the active value of slot `(e, k)`.
pub open spec fn reasserts(t: Seq<Fact>, e: Seq<char>, k: Seq<char>, v: Seq<char>) -> bool {
    active_fact(t, e, k) is Some && active_fact(t, e, k).unwrap().value@ == v
}

/// No two rows share an id.
pub open spec fn fact_ids_unique(t: Seq<Fact>) -> bool {
    forall|i: int, j: int| 0 <= i < t.len() && 0 <= j < t.len() && i != j ==> (#[trigger] t[i]).id@ != (#[trigger] t[j]).id@
}

/// Some row has id `id`.
pub open spec fn fact_id_taken(t: Seq<Fact>, id: Seq<char>) -> bool {
    exists|j: int| 0 <= j < t.len() && (#[trigger] t[j]).id@ == id
}

/// Whether some row has id `id`.
fn find_fact_id(t: &Vec<Fact>, id: &String) -> (b: bool)
    ensures
        b == fact_id_taken(t@, id@),
{
    let mut i: usize = 0;
    while i < t.len()
        invariant
            i <= t.len(),
            forall|j: int| 0 <= j < i ==> (#[trigger] t@[j]).id@ != id@,
        decreases t.len() - i,
    {
        if t[i].id == *id {
            return true;
        }
        i += 1;
    }
    false
}

impl SqliteStore {
    /// Record `value` for `(entity, key)`. Re-asserting the active value is a
    /// no-op that returns the active row's id (its source is kept); any
    /// other value marks the active row superseded and appends a new active
    /// row under a fresh id, which is returned. An empty entity or key is
    /// rejected; on a read-only store the write is the database's error.
    pub fn set_fact(&mut self, entity: &str, key: &str, value: &str, source: &str) -> (r: IcmResult<String>)
        requires
            old(self).wf(),
        ensures
            final(self).wf(),
            facts_only(*old(self), *final(self)),
            (entity@.len() == 0 || key@.len() == 0) ==> {
                &&& final(self).facts@ == old(self).facts@
                &&& r matches Err(IcmError::InvalidInput(m)) && m@ == "entity and key must be non-empty"@
            },
            (entity@.len() > 0 && key@.len() > 0 && old(self).readonly) ==> {
                &&& final(self).facts@ == old(self).facts@
                &&& r matches Err(e) && readonly_db_error(e)
            },
            (entity@.len() > 0 && key@.len() > 0 && !old(self).readonly) ==> {
                &&& reasserts(old(self).facts@, entity@, key@, value@) ==> final(self).facts@ == old(self).facts@
                    && (r matches Ok(x) && x@ == active_fact(old(self).facts@, entity@, key@).unwrap().id@)
                &&& r matches Ok(id) ==> set_fact_effect(old(self).facts@, final(self).facts@, entity@, key@, value@, source@, id@)
                &&& r is Err ==> final(self).facts@ == old(self).facts@
                    && (r matches Err(IcmError::Database(m)) && m@ == "UNIQUE constraint failed: facts.id"@)
                &&& r is Err ==> exists|j: int| 0 <= j < old(self).facts@.len() && (#[trigger] old(self).facts@[j]).id@.len() == 26
            },
    {
        if entity.is_empty() || key.is_empty() {
            return Err(invalid_input("entity and key must be non-empty"));
        }
        if self.readonly {
            return Err(readonly_db());
        }
        let id = new_ulid();
        let now = now_rfc3339();
        let r = self.set_fact_at(entity, key, value, source, id, now);
        proof {
            if r is Err {
                let j = choose|j: int| 0 <= j < old(self).facts@.len() && (#[trigger] old(self).facts@[j]).id@ == id@;
                assert(old(self).facts@[j].id@.len() == 26);
            }
        }
        r
    }

    /// Record `value` for `(entity, key)` with `id` as the id a new row
    /// would take and `now` as the time of the change. Re-asserting the
    /// active value is a no-op answering the active row's id; otherwise an
    /// `id` some row already has is the database's uniqueness error and
    /// changes nothing, and any other `id` supersedes the active row (if
    /// any) at `now` and appends the new active row, created at `now`.
    pub fn set_fact_at(&mut self, entity: &str, key: &str, value: &str, source: &str, id: String, now: String) -> (r: IcmResult<String>)
        requires
            old(self).wf(),
        ensures
            final(self).wf(),
            facts_only(*old(self), *final(self)),
            reasserts(old(self).facts@, entity@, key@, value@) ==> final(self).facts@ == old(self).facts@
                && (r matches Ok(x) && x@ == active_fact(old(self).facts@, entity@, key@).unwrap().id@),
            !reasserts(old(self).facts@, entity@, key@, value@) ==> {
                &&& fact_id_taken(old(self).facts@, id@) ==> final(self).facts@ == old(self).facts@
                    && (r matches Err(IcmError::Database(m)) && m@ == "UNIQUE constraint failed: facts.id"@)
                &&& !fact_id_taken(old(self).facts@, id@) ==> r == Ok::<String, IcmError>(id)
                    && set_fact_effect(old(self).facts@, final(self).facts@, entity@, key@, value@, source@, id@)
                    && final(self).facts@.last().created_at == now
            },
    {
        let e = owned(entity);
        let k = owned(key);
        let v = owned(value);
        let ghost old_t = self.facts@;
        let found = find_active(&self.facts, &e, &k);
        match found {
            Some(i) => {
                proof {
                    lemma_active_fact_at(old_t, e@, k@, i as int);
                }
                if self.facts[i].value == v {
                    return Ok(self.facts[i].id.clone());
                }
            },
            None => {
                proof {
                    assert(!(exists|j: int| 0 <= j < old_t.len() && active_in(#[trigger] old_t[j], e@, k@)));
                }
            },
        }
        if find_fact_id(&self.facts, &id) {
            return Err(IcmError::Database(owned("UNIQUE constraint failed: facts.id")));
        }
        match found {
            Some(i) => {
                let mut row = self.facts[i].copy();
                row.superseded_at = Some(now.clone());
                self.facts.set(i, row);
            },
            None => {},
        }
        let ghost mid = self.facts@;
        let f = Fact {
            id: id.clone(),
            entity: e,
            key: k,
            value: v,
            source: owned(source),
            created_at: now,
            superseded_at: None,
        };
        self.facts.push(f);
        proof {
            let t = self.facts@;
            assert forall|a: int, b: int|
                0 <= a < t.len() && 0 <= b < t.len() && a != b && (#[trigger] t[a]).superseded_at is None
                    && (#[trigger] t[b]).superseded_at is None implies !(t[a].entity@ == t[b].entity@
                && t[a].key@ == t[b].key@) by {
                if a < old_t.len() && b < old_t.len() {
                    if active_in(old_t[a], e@, k@) {
                    } else if active_in(old_t[b], e@, k@) {
                    } else {
                        assert(t[a] == old_t[a] || active_in(old_t[a], e@, k@));
                        assert(t[b] == old_t[b] || active_in(old_t[b], e@, k@));
                    }
                } else if a == old_t.len() {
                    assert(t[b] == mid[b]);
                    if active_in(old_t[b], e@, k@) {
                    } else {
                        assert(t[b] == old_t[b]);
                    }
                } else {
                    assert(t[a] == mid[a]);
                    if active_in(old_t[a], e@, k@) {
                    } else {
                        assert(t[a] == old_t[a]);
                    }
                }
            }
            assert forall|a: int, b: int| 0 <= a < t.len() && 0 <= b < t.len() && a != b implies (#[trigger] t[a]).id@ != (#[trigger] t[b]).id@ by {
                if a < old_t.len() {
                    assert(t[a].id == old_t[a].id);
                }
                if b < old_t.len() {
                    assert(t[b].id == old_t[b].id);
                }
            }
            assert forall|j: int| 0 <= j < old_t.len() implies (#[trigger] old_t[j]).id@ != id@ by {}
        }
        Ok(id)
    }

    /// Put back a stored fact row as it was saved. An id already taken,
    /// or an active row for a slot that already has one, is the database's
    /// uniqueness error and changes nothing; so is any write on a read-only
    /// store.
    pub fn restore_fact(&mut self, f: Fact) -> (r: IcmResult<()>)
        requires
            old(self).wf(),
        ensures
            final(self).wf(),
            facts_only(*old(self), *final(self)),
            r is Ok <==> !old(self).readonly && !fact_id_taken(old(self).facts@, f.id@)
                && !(f.superseded_at is None && active_fact(old(self).facts@, f.entity@, f.key@) is Some),
            r is Ok ==> final(self).facts@ == old(self).facts@.push(f),
            r is Err ==> final(self).facts@ == old(self).facts@ && (r matches Err(e) && e is Database),
            old(self).readonly ==> (r matches Err(e) && readonly_db_error(e)),
    {
        if self.readonly {
            return Err(readonly_db());
        }
        if find_fact_id(&self.facts, &f.id) {
            return Err(IcmError::Database(owned("UNIQUE constraint failed: facts.id")));
        }
        let ghost old_t = self.facts@;
        if f.superseded_at.is_none() {
            match find_active(&self.facts, &f.entity, &f.key) {
                Some(i) => {
                    proof {
                        lemma_active_fact_at(old_t, f.entity@, f.key@, i as int);
                    }
                    return Err(IcmError::Database(owned("UNIQUE constraint failed: facts.entity, facts.key")));
                },
                None => {
                    proof {
                        assert(!(exists|j: int| 0 <= j < old_t.len() && active_in(#[trigger] old_t[j], f.entity@, f.key@)));
                    }
                },
            }
        }
        self.facts.push(f);
        proof {
            let t = self.facts@;
            assert forall|a: int, b: int|
                0 <= a < t.len() && 0 <= b < t.len() && a != b && (#[trigger] t[a]).superseded_at is None
                    && (#[trigger] t[b]).superseded_at is None implies !(t[a].entity@ == t[b].entity@
                && t[a].key@ == t[b].key@) by {
                if a < old_t.len() {
                    assert(t[a] == old_t[a]);
                }
                if b < old_t.len() {
                    assert(t[b] == old_t[b]);
                }
                if a == old_t.len() {
                    assert(!active_in(old_t[b], t[a].entity@, t[a].key@));
                }
                if b == old_t.len() {
                    assert(!active_in(old_t[a], t[b].entity@, t[b].key@));
                }
            }
            assert forall|a: int, b: int| 0 <= a < t.len() && 0 <= b < t.len() && a != b implies (#[trigger] t[a]).id@ != (#[trigger] t[b]).id@ by {
                if a < old_t.len() {
                    assert(t[a] == old_t[a]);
                }
                if b < old_t.len() {
                    assert(t[b] == old_t[b]);
                }
            }
        }
        Ok(())
    }

    /// The active row of `(entity, key)`, if there is one.
    pub fn get_fact(&self, entity: &str, key: &str) -> (r: IcmResult<Option<Fact>>)
        requires
            self.wf(),
        ensures
            r == Ok::<Option<Fact>, IcmError>(active_fact(self.facts@, entity@, key@)),
    {
        let e = owned(entity);
        let k = owned(key);
        match find_active(&self.facts, &e, &k) {
            Some(i) => {
                proof {
                    lemma_active_fact_at(self.facts@, e@, k@, i as int);
                }
                Ok(Some(self.facts[i].copy()))
            },
            None => Ok(None),
        }
    }

    /// Every row of `(entity, key)`, active and superseded, newest first.
    pub fn history(&self, entity: &str, key: &str) -> (r: IcmResult<Vec<Fact>>)
        ensures
            r matches Ok(v) && v@.len() == slot_rows(self.facts@, entity@, key@).len() && forall|j: int|
                0 <= j < v@.len() ==> #[trigger] v@[j] == slot_rows(self.facts@, entity@, key@)[v@.len()
                    - 1 - j],
    {
        let e = owned(entity);
        let k = owned(key);
        let ghost t = self.facts@;
        let ghost p = |f: Fact| in_slot(f, e@, k@);
        let mut rows: Vec<Fact> = Vec::new();
        let mut i: usize = 0;
        while i < self.facts.len()
            invariant
                i <= self.facts.len(),
                t == self.facts@,
                p == (|f: Fact| in_slot(f, e@, k@)),
                rows@ == t.take(i as int).filter(p),
            decreases self.facts.len() - i,
        {
            proof {
                lemma_filter_step(t, i as int, p);
            }
            if self.facts[i].entity == e && self.facts[i].key == k {
                rows.push(self.facts[i].copy());
            }
            i += 1;
        }
        proof {
            assert(t.take(t.len() as int) =~= t);
        }
        let ghost f = rows@;
        let mut out: Vec<Fact> = Vec::new();
        while rows.len() > 0
            invariant
                rows@ == f.take(rows.len() as int),
                rows.len() + out.len() == f.len(),
                forall|j: int| 0 <= j < out@.len() ==> #[trigger] out@[j] == f[f.len() - 1 - j],
            decreases rows.len(),
        {
            let x = rows.pop().unwrap();
            out.push(x);
            proof {
                assert(rows@ =~= f.take(rows.len() as int));
            }
        }
        Ok(out)
    }

    /// Delete every row of `(entity, key)`, active and superseded; answers
    /// how many rows went. On a read-only store the delete is the
    /// database's error and nothing goes.
    pub fn forget_fact(&mut self, entity: &str, key: &str) -> (r: IcmResult<usize>)
        requires
            old(self).wf(),
        ensures
            final(self).wf(),
            facts_only(*old(self), *final(self)),
            old(self).readonly ==> final(self).facts@ == old(self).facts@ && (r matches Err(e) && readonly_db_error(e)),
            !old(self).readonly ==> final(self).facts@ == old(self).facts@.filter(|f: Fact| !in_slot(f, entity@, key@)),
            !old(self).readonly ==> r == Ok::<usize, IcmError>(
                (old(self).facts@.len() - final(self).facts@.len()) as usize,
            ),
    {
        if self.readonly {
            return Err(readonly_db());
        }
        let e = owned(entity);
        let k = owned(key);
        let ghost t = self.facts@;
        let ghost p = |f: Fact| !in_slot(f, e@, k@);
        let mut kept: Vec<Fact> = Vec::new();
        let mut i: usize = 0;
        while i < self.facts.len()
            invariant
                i <= self.facts.len(),
                t == self.facts@,
                facts_wf(t),
                p == (|f: Fact| !in_slot(f, e@, k@)),
                kept@ == t.take(i as int).filter(p),
                forall|a: int| 0 <= a < kept@.len() ==> exists|j: int| 0 <= j < i && #[trigger] kept@[a] == t[j],
                facts_wf(kept@),
                fact_ids_unique(t),
                fact_ids_unique(kept@),
                kept@.len() <= i,
            decreases self.facts.len() - i,
        {
            proof {
                lemma_filter_step(t, i as int, p);
            }
            if !(self.facts[i].entity == e && self.facts[i].key == k) {
                let ghost before = kept@;
                kept.push(self.facts[i].copy());
                proof {
                    assert forall|a: int, b: int|
                        0 <= a < kept@.len() && 0 <= b < kept@.len() && a != b
                            && (#[trigger] kept@[a]).superseded_at is None
                            && (#[trigger] kept@[b]).superseded_at is None implies !(kept@[a].entity@
                        == kept@[b].entity@ && kept@[a].key@ == kept@[b].key@) by {
                        if a == before.len() {
                            let j = choose|j: int| 0 <= j < i && #[trigger] before[b] == t[j];
                            assert(t[j].superseded_at is None && t[i as int].superseded_at is None);
                        } else if b == before.len() {
                            let j = choose|j: int| 0 <= j < i && #[trigger] before[a] == t[j];
                            assert(t[j].superseded_at is None && t[i as int].superseded_at is None);
                        } else {
                            assert(kept@[a] == before[a] && kept@[b] == before[b]);
                        }
                    }
                    assert forall|a: int, b: int| 0 <= a < kept@.len() && 0 <= b < kept@.len() && a != b
                        implies (#[trigger] kept@[a]).id@ != (#[trigger] kept@[b]).id@ by {
                        if a == before.len() {
                            let j = choose|j: int| 0 <= j < i && #[trigger] before[b] == t[j];
                            assert(t[j].id@ != t[i as int].id@);
                        } else if b == before.len() {
                            let j = choose|j: int| 0 <= j < i && #[trigger] before[a] == t[j];
                            assert(t[j].id@ != t[i as int].id@);
                        } else {
                            assert(kept@[a] == before[a] && kept@[b] == before[b]);
                        }
                    }
                    assert forall|a: int| 0 <= a < kept@.len() implies exists|j: int|
                        0 <= j < i + 1 && #[trigger] kept@[a] == t[j] by {
                        if a == before.len() {
                            assert(kept@[a] == t[i as int]);
                        } else {
                            assert(kept@[a] == before[a]);
                        }
                    }
                }
            }
            i += 1;
        }
        proof {
            assert(t.take(t.len() as int) =~= t);
        }
        let removed = self.facts.len() - kept.len();
        self.facts = kept;
        Ok(removed)
    }

    /// The active rows of `entity`, by key ascending; with a non-empty
    /// `key_prefix`, only keys matching the `LIKE` pattern `key_prefix%`
    /// (ASCII case-insensitive; `%` and `_` in the prefix act as wildcards).
    pub fn list_facts(&self, entity: &str, key_prefix: Option<&str>) -> (r: IcmResult<Vec<Fact>>)
        ensures
            r matches Ok(v) && {
                &&& v@.to_multiset() == self.facts@.filter(
                    |f: Fact| listed(f, entity@, prefix_view(key_prefix)),
                ).to_multiset()
                &&& sorted_by_text(v@)
            },
    {
        let e = owned(entity);
        let pattern: Option<Vec<char>> = match key_prefix {
            Some(p) => {
                if p.is_empty() {
                    None
                } else {
                    let mut pc = chars_of(p);
                    pc.push('%');
                    Some(pc)
                }
            },
            None => None,
        };
        let ghost t = self.facts@;
        let ghost pred = |f: Fact| listed(f, entity@, prefix_view(key_prefix));
        let mut rows: Vec<Fact> = Vec::new();
        let mut i: usize = 0;
        while i < self.facts.len()
            invariant
                i <= self.facts.len(),
                t == self.facts@,
                e@ == entity@,
                pred == (|f: Fact| listed(f, entity@, prefix_view(key_prefix))),
                match key_prefix {
                    Some(p) => if p@.len() == 0 { pattern is None } else { pattern matches Some(pc) && pc@ == p@.push('%') },
                    None => pattern is None,
                },
                rows@ == t.take(i as int).filter(pred),
            decreases self.facts.len() - i,
        {
            proof {
                lemma_filter_step(t, i as int, pred);
            }
            let row = &self.facts[i];
            if row.superseded_at.is_none() && row.entity == e {
                let keep = match &pattern {
                    Some(pc) => like_matches(pc, &chars_of(row.key.as_str()), true, false),
                    None => true,
                };
                if keep {
                    rows.push(row.copy());
                }
            }
            i += 1;
        }
        proof {
            assert(t.take(t.len() as int) =~= t);
        }
        Ok(sort_by_text(rows))
    }

    /// Every active row of every entity, by entity then key.
    pub fn list_all_facts(&self) -> (r: IcmResult<Vec<Fact>>)
        ensures
            r matches Ok(v) && {
                &&& v@.to_multiset() == self.facts@.filter(|f: Fact| f.superseded_at is None).to_multiset()
                &&& forall|i: int, j: int|
                    0 <= i < j < v@.len() ==> text_le(
                        entity_key(#[trigger] v@[i]),
                        entity_key(#[trigger] v@[j]),
                    )
            },
    {
        let ghost t = self.facts@;
        let ghost pred = |f: Fact| f.superseded_at is None;
        let mut rows: Vec<ByEntityKey> = Vec::new();
        let mut i: usize = 0;
        while i < self.facts.len()
            invariant
                i <= self.facts.len(),
                t == self.facts@,
                pred == (|f: Fact| f.superseded_at is None),
                unwrap_rows(rows@) == t.take(i as int).filter(pred),
            decreases self.facts.len() - i,
        {
            proof {
                lemma_filter_step(t, i as int, pred);
            }
            if self.facts[i].superseded_at.is_none() {
                let ghost before = rows@;
                rows.push(ByEntityKey(self.facts[i].copy()));
                proof {
                    assert(unwrap_rows(rows@) =~= unwrap_rows(before).push(self.facts@[i as int]));
                }
            }
            i += 1;
        }
        proof {
            assert(t.take(t.len() as int) =~= t);
        }
        let ghost unsorted = rows@;
        let sorted = sort_by_text(rows);
        let mut out: Vec<Fact> = Vec::new();
        let mut rest = sorted;
        let ghost all = rest@;
        let mut n: usize = 0;
        let total = rest.len();
        while n < total
            invariant
                n <= total == all.len(),
                rest@ == all.skip(n as int),
                out@ == unwrap_rows(all.take(n as int)),
            decreases total - n,
        {
            proof {
                assert(rest@[0] == all[n as int]);
            }
            let ByEntityKey(f) = rest.remove(0);
            out.push(f);
            proof {
                assert(rest@ =~= all.skip(n + 1));
                assert(unwrap_rows(all.take(n + 1)) =~= unwrap_rows(all.take(n as int)).push(all[n as int].0));
            }
            n += 1;
        }
        proof {
            assert(all.take(total as int) =~= all);
            lemma_unwrap_rows_multiset(all, unsorted);
            assert(out@ =~= unwrap_rows(all));
            assert forall|i: int, j: int| 0 <= i < j < out@.len() implies text_le(
                entity_key(#[trigger] out@[i]),
                entity_key(#[trigger] out@[j]),
            ) by {
                assert(all[i].text_key() == entity_key(out@[i]));
                assert(all[j].text_key() == entity_key(out@[j]));
            }
        }
        Ok(out)
    }
}

/// A fact ordered by entity, then key.
pub struct ByEntityKey(pub Fact);

/// The sort key of a fact by entity then key: the entity, a NUL, the key.
pub open spec fn entity_key(f: Fact) -> Seq<char> {
    f.entity@ + seq!['\0'] + f.key@
}

impl TextKeyed for ByEntityKey {
    open spec fn text_key(&self) -> Seq<char> {
        entity_key(self.0)
    }

    fn key_chars(&self) -> (k: Vec<char>) {
        let mut k = chars_of(self.0.entity.as_str());
        k.push('\0');
        let kc = chars_of(self.0.key.as_str());
        let mut i: usize = 0;
        let ghost base = k@;
        while i < kc.len()
            invariant
                i <= kc.len(),
                k@ == base + kc@.take(i as int),
            decreases kc.len() - i,
        {
            k.push(kc[i]);
            proof {
                assert(kc@.take(i + 1) =~= kc@.take(i as int).push(kc@[i as int]));
            }
            i += 1;
        }
        proof {
            assert(kc@.take(kc.len() as int) =~= kc@);
            assert(k@ =~= entity_key(self.0));
        }
        k
    }
}

/// The facts inside wrapped rows.
pub open spec fn unwrap_rows(s: Seq<ByEntityKey>) -> Seq<Fact> {
    Seq::new(s.len(), |i: int| s[i].0)
}

/// Unwrapping counts each fact as often as its wrapped row occurs.
pub proof fn lemma_unwrap_count(s: Seq<ByEntityKey>, f: Fact)
    ensures
        unwrap_rows(s).to_multiset().count(f) == s.to_multiset().count(ByEntityKey(f)),
    decreases s.len(),
{
    if s.len() == 0 {
        assert(unwrap_rows(s) =~= Seq::<Fact>::empty());
    } else {
        let p = s.drop_last();
        lemma_unwrap_count(p, f);
        assert(s =~= p.push(s.last()));
        assert(unwrap_rows(s) =~= unwrap_rows(p).push(s.last().0));
        p.to_multiset_ensures();
        unwrap_rows(p).to_multiset_ensures();
    }
}

/// Unwrapping keeps multiset equality.
pub proof fn lemma_unwrap_rows_multiset(u: Seq<ByEntityKey>, s: Seq<ByEntityKey>)
    requires
        u.to_multiset() == s.to_multiset(),
    ensures
        unwrap_rows(u).to_multiset() == unwrap_rows(s).to_multiset(),
{
    assert forall|f: Fact| unwrap_rows(u).to_multiset().count(f) == unwrap_rows(s).to_multiset().count(f) by {
        lemma_unwrap_count(u, f);
        lemma_unwrap_count(s, f);
    }
    assert(unwrap_rows(u).to_multiset() =~= unwrap_rows(s).to_multiset());
}

/// The prefix filter of `list_facts` as a sequence.
pub open spec fn prefix_view(p: Option<&str>) -> Option<Seq<char>> {
    match p {
        Some(s) => Some(s@),
        None => None,
    }
}

/// The entities with at least one active row.
pub open spec fn active_entities(t: Seq<Fact>) -> Set<Seq<char>> {
    Set::new(|e: Seq<char>| exists|i: int| 0 <= i < t.len() && (#[trigger] t[i]).superseded_at is None && t[i].entity@ == e)
}

/// The entities of the active rows, row by row.
pub open spec fn active_names(t: Seq<Fact>) -> Seq<Seq<char>> {
    t.filter(|f: Fact| f.superseded_at is None).map_values(|f: Fact| f.entity@)
}

/// Largest number of entities `facts_stats` lists.
pub const TOP_ENTITIES: usize = 10;

impl SqliteStore {
    /// Figures over the facts: active and total rows, distinct entities
    /// among the active rows, and the `TOP_ENTITIES` entities with the most
    /// active rows, most first.
    pub fn facts_stats(&self) -> (r: IcmResult<FactsStats>)
        ensures
            r matches Ok(st) && {
                &&& st.active_count == self.facts@.filter(|f: Fact| f.superseded_at is None).len()
                &&& st.total_count == self.facts@.len()
                &&& st.distinct_entities == active_entities(self.facts@).len()
                &&& exists|all: Seq<(String, usize)>| counted(active_names(self.facts@), all) && st.top_entities@ == first_n(all, TOP_ENTITIES as nat)
            },
    {
        let ghost t = self.facts@;
        let ghost pa = |f: Fact| f.superseded_at is None;
        let mut active: usize = 0;
        let mut names: Vec<String> = Vec::new();
        let mut i: usize = 0;
        while i < self.facts.len()
            invariant
                i <= self.facts.len(),
                t == self.facts@,
                pa == (|f: Fact| f.superseded_at is None),
                active == t.take(i as int).filter(pa).len(),
                names@.len() == active,
                text_views(names@) == active_names(t.take(i as int)),
            decreases self.facts.len() - i,
        {
            proof {
                lemma_filter_step(t, i as int, pa);
            }
            if self.facts[i].superseded_at.is_none() {
                let ghost n0 = names@;
                names.push(self.facts[i].entity.clone());
                active = active + 1;
                proof {
                    assert(text_views(names@) =~= text_views(n0).push(t[i as int].entity@));
                    assert(active_names(t.take(i + 1)) =~= active_names(t.take(i as int)).push(t[i as int].entity@));
                }
            } else {
                proof {
                    assert(active_names(t.take(i + 1)) =~= active_names(t.take(i as int)));
                }
            }
            i += 1;
        }
        proof {
            assert(t.take(t.len() as int) =~= t);
        }
        let ghost ks = active_names(t);
        let g = tally(&names);
        let nn = names.len();
        proof {
            lemma_tally_bounded(ks, g@);
            assert(ks.len() == nn);
        }
        let all = name_first(g, Ghost(ks));
        let ghost alls = all@;
        let distinct = all.len();
        proof {
            let nm = Seq::new(alls.len(), |i: int| alls[i].0@);
            nm.unique_seq_to_set();
            assert(ks.to_set() =~= active_entities(t)) by {
                assert forall|e: Seq<char>| ks.to_set().contains(e) <==> active_entities(t).contains(e) by {
                    let f = t.filter(pa);
                    if ks.contains(e) {
                        let w = choose|w: int| 0 <= w < ks.len() && ks[w] == e;
                        assert(f.contains(f[w]));
                        t.lemma_filter_contains_rev(pa, f[w]);
                        t.lemma_filter_pred(pa, w);
                        let z = choose|z: int| 0 <= z < t.len() && t[z] == f[w];
                        assert(t[z].superseded_at is None && t[z].entity@ == e);
                    }
                    if active_entities(t).contains(e) {
                        let z = choose|z: int| 0 <= z < t.len() && (#[trigger] t[z]).superseded_at is None && t[z].entity@ == e;
                        t.lemma_filter_contains(pa, z);
                        let w = choose|w: int| 0 <= w < f.len() && f[w] == t[z];
                        assert(ks[w] == e);
                    }
                }
            }
            assert(nm.to_set() == active_entities(t));
        }
        let top = keep_first(all, TOP_ENTITIES);
        Ok(FactsStats { active_count: active, total_count: self.facts.len(), distinct_entities: distinct, top_entities: top })
    }
}

} // verus!
