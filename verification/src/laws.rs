//! Properties of the store that span several operations, each proved from
//! the contracts of the operations it speaks of.
use vstd::prelude::*;
use crate::facts::{active_fact, active_in, facts_wf, in_slot, set_fact_effect, slot_rows};
use crate::maintain::{deleted_row, survives};
use crate::consolidate::mem_views;
use crate::memory::{decay_twice_mult, decayed_rows, decayed_weight, memories_wf, memory_with_id, store_effect};
use crate::model::{Fact, Importance, Memory, MemoryView};
use crate::normalize::content_hash;
use crate::transcript::{
    MAX_MESSAGE_BYTES, Message, Role, TranscriptTable, ensure_session_effect, forget_session_effect, has_session, in_session, message_page,
    record_message_effect, session_with_id,
};
use crate::encode::cut_to_bytes;
use crate::order::{TextKeyed, sorted_by_text, text_le};
use crate::transcript::first_n;
use crate::graph::{Concept, Memoir};
use crate::backends::{DAY_MILLIS, claim_due, claim_due_pg, slot_after_claim};

verus! {

broadcast use vstd::seq_lib::group_seq_properties;

/// After `set_fact` the table still has at most one active row per slot,
/// and the active row of the slot written holds the value written, under
/// the id answered.
pub proof fn law_fact_read_after_write(before: Seq<Fact>, after: Seq<Fact>, e: Seq<char>, k: Seq<char>, v: Seq<char>, s: Seq<char>, id: Seq<char>)
    requires
        facts_wf(before),
        set_fact_effect(before, after, e, k, v, s, id),
    ensures
        facts_wf(after),
        active_fact(after, e, k) matches Some(f) && f.value@ == v && f.id@ == id,
{
    if active_fact(before, e, k) is Some && active_fact(before, e, k).unwrap().value@ == v {
        let i = choose|i: int| 0 <= i < before.len() && active_in(#[trigger] before[i], e, k);
        assert(active_in(before[i], e, k));
    } else {
        let n = before.len() as int;
        assert(active_in(after[n], e, k));
        assert forall|i: int, j: int|
            0 <= i < after.len() && 0 <= j < after.len() && i != j && (#[trigger] after[i]).superseded_at is None
                && (#[trigger] after[j]).superseded_at is None implies !(after[i].entity@ == after[j].entity@
                && after[i].key@ == after[j].key@) by {
            if i < n && j < n {
                if active_in(before[i], e, k) {
                } else if active_in(before[j], e, k) {
                } else {
                    assert(after[i] == before[i] && after[j] == before[j]);
                }
            } else if i < n {
                if !active_in(before[i], e, k) {
                    assert(after[i] == before[i]);
                }
            } else {
                if !active_in(before[j], e, k) {
                    assert(after[j] == before[j]);
                }
            }
        }
        let c = choose|c: int| 0 <= c < after.len() && active_in(#[trigger] after[c], e, k);
        assert(active_in(after[c], e, k));
        if c != n {
            assert(!(after[c].entity@ == after[n].entity@ && after[c].key@ == after[n].key@));
        }
    }
}

/// Writing the value a slot already holds again changes nothing and
/// answers the same id.
pub proof fn law_fact_rewrite_is_idempotent(
    t0: Seq<Fact>,
    t1: Seq<Fact>,
    t2: Seq<Fact>,
    e: Seq<char>,
    k: Seq<char>,
    v: Seq<char>,
    s1: Seq<char>,
    s2: Seq<char>,
    id1: Seq<char>,
    id2: Seq<char>,
)
    requires
        facts_wf(t0),
        set_fact_effect(t0, t1, e, k, v, s1, id1),
        set_fact_effect(t1, t2, e, k, v, s2, id2),
    ensures
        t2 == t1,
        id2 == id1,
{
    law_fact_read_after_write(t0, t1, e, k, v, s1, id1);
}

/// `set_fact` on one slot leaves the active row of every other slot as it
/// was.
pub proof fn law_fact_write_keeps_other_slots(
    before: Seq<Fact>,
    after: Seq<Fact>,
    e: Seq<char>,
    k: Seq<char>,
    v: Seq<char>,
    s: Seq<char>,
    id: Seq<char>,
    e2: Seq<char>,
    k2: Seq<char>,
)
    requires
        facts_wf(before),
        set_fact_effect(before, after, e, k, v, s, id),
        !(e2 == e && k2 == k),
    ensures
        active_fact(after, e2, k2) == active_fact(before, e2, k2),
{
    law_fact_read_after_write(before, after, e, k, v, s, id);
    if active_fact(before, e, k) is Some && active_fact(before, e, k).unwrap().value@ == v {
    } else {
        let n = before.len() as int;
        if exists|i: int| 0 <= i < before.len() && active_in(#[trigger] before[i], e2, k2) {
            let i = choose|i: int| 0 <= i < before.len() && active_in(#[trigger] before[i], e2, k2);
            assert(!active_in(before[i], e, k));
            assert(after[i] == before[i]);
            assert(active_in(after[i], e2, k2));
            let c = choose|c: int| 0 <= c < after.len() && active_in(#[trigger] after[c], e2, k2);
            assert(active_in(after[c], e2, k2));
            if c != i {
                assert(!(after[c].entity@ == after[i].entity@ && after[c].key@ == after[i].key@));
            }
        } else {
            assert forall|c: int| 0 <= c < after.len() implies !active_in(#[trigger] after[c], e2, k2) by {
                if c < n {
                    if active_in(before[c], e, k) {
                    } else {
                        assert(after[c] == before[c]);
                    }
                }
            }
        }
    }
}

/// Filtering two sequences that agree on the predicate keeps as many
/// elements of each.
proof fn lemma_filter_len_same<A>(a: Seq<A>, b: Seq<A>, p: spec_fn(A) -> bool)
    requires
        a.len() == b.len(),
        forall|i: int| 0 <= i < a.len() ==> p(#[trigger] a[i]) == p(b[i]),
    ensures
        a.filter(p).len() == b.filter(p).len(),
    decreases a.len(),
{
    if a.len() > 0 {
        let n = a.len() - 1;
        lemma_filter_len_same(a.take(n), b.take(n), p);
        crate::facts::lemma_filter_step(a, n, p);
        crate::facts::lemma_filter_step(b, n, p);
        assert(a.take(n + 1) =~= a);
        assert(b.take(n + 1) =~= b);
    }
}

/// Writing a new value to a slot adds exactly one row to its history: the
/// new active row, holding the value, last.
pub proof fn law_fact_history_grows(before: Seq<Fact>, after: Seq<Fact>, e: Seq<char>, k: Seq<char>, v: Seq<char>, s: Seq<char>, id: Seq<char>)
    requires
        facts_wf(before),
        set_fact_effect(before, after, e, k, v, s, id),
        !(active_fact(before, e, k) is Some && active_fact(before, e, k).unwrap().value@ == v),
    ensures
        slot_rows(after, e, k).len() == slot_rows(before, e, k).len() + 1,
        slot_rows(after, e, k).last().value@ == v,
        slot_rows(after, e, k).last().superseded_at is None,
{
    let p = |f: Fact| in_slot(f, e, k);
    let n = before.len() as int;
    let mid = after.take(n);
    assert forall|j: int| 0 <= j < n implies p(#[trigger] mid[j]) == p(before[j]) by {
        assert(mid[j] == after[j]);
    }
    lemma_filter_len_same(mid, before, p);
    crate::facts::lemma_filter_step(after, n, p);
    assert(after.take(n + 1) =~= after);
    assert(slot_rows(after, e, k) == mid.filter(p).push(after[n]));
}

/// One call of `set_fact` as the facts table saw it: the slot, value and
/// source written, the id answered, and whether it succeeded.
pub ghost struct FactWrite {
    pub entity: Seq<char>,
    pub key: Seq<char>,
    pub value: Seq<char>,
    pub source: Seq<char>,
    pub id: Seq<char>,
    pub ok: bool,
}

/// What one call did to the table: a success as `set_fact_effect` says, a
/// failure nothing.
pub open spec fn fact_step(before: Seq<Fact>, after: Seq<Fact>, w: FactWrite) -> bool {
    if w.ok {
        set_fact_effect(before, after, w.entity, w.key, w.value, w.source, w.id)
    } else {
        after == before
    }
}

/// `ts` are the tables before and after each of the calls `ws`.
pub open spec fn fact_run(ts: Seq<Seq<Fact>>, ws: Seq<FactWrite>) -> bool {
    &&& ts.len() == ws.len() + 1
    &&& forall|i: int| 0 <= i < ws.len() ==> fact_step(ts[i], ts[i + 1], #[trigger] ws[i])
}

/// The value of the last successful write to slot `(e, k)` among `ws`.
pub open spec fn last_written(ws: Seq<FactWrite>, e: Seq<char>, k: Seq<char>) -> Option<Seq<char>>
    decreases ws.len(),
{
    if ws.len() == 0 {
        None
    } else if ws.last().ok && ws.last().entity == e && ws.last().key == k {
        Some(ws.last().value)
    } else {
        last_written(ws.drop_last(), e, k)
    }
}

/// Every row of `before` is still in `after`, at its place, with its id,
/// slot and value (it may have been marked superseded).
pub open spec fn rows_kept(before: Seq<Fact>, after: Seq<Fact>) -> bool {
    &&& before.len() <= after.len()
    &&& forall|j: int| 0 <= j < before.len() ==> {
        &&& (#[trigger] after[j]).id == before[j].id
        &&& after[j].entity == before[j].entity
        &&& after[j].key == before[j].key
        &&& after[j].value == before[j].value
    }
}

/// Over any run of `set_fact` calls, each succeeding or failing, every slot
/// keeps at most one active row; the active row of a slot holds the value
/// of the last successful write to it (and is the one it had before when
/// there was none); and no row is ever deleted: superseded rows stay as
/// history.
pub proof fn law_fact_runs(ts: Seq<Seq<Fact>>, ws: Seq<FactWrite>, e: Seq<char>, k: Seq<char>)
    requires
        fact_run(ts, ws),
        facts_wf(ts[0]),
    ensures
        facts_wf(ts.last()),
        match last_written(ws, e, k) {
            Some(v) => active_fact(ts.last(), e, k) matches Some(f) && f.value@ == v,
            None => active_fact(ts.last(), e, k) == active_fact(ts[0], e, k),
        },
        rows_kept(ts[0], ts.last()),
    decreases ws.len(),
{
    if ws.len() > 0 {
        let n = ws.len() - 1;
        let ts0 = ts.drop_last();
        let ws0 = ws.drop_last();
        assert forall|i: int| 0 <= i < ws0.len() implies fact_step(ts0[i], ts0[i + 1], #[trigger] ws0[i]) by {
            assert(ws0[i] == ws[i] && ts0[i] == ts[i] && ts0[i + 1] == ts[i + 1]);
        }
        law_fact_runs(ts0, ws0, e, k);
        let before = ts[n];
        let after = ts[n + 1];
        let w = ws[n];
        assert(ts0.last() == before && ts.last() == after && ts0[0] == ts[0]);
        assert(fact_step(before, after, w));
        if w.ok {
            law_fact_read_after_write(before, after, w.entity, w.key, w.value, w.source, w.id);
            if !(w.entity == e && w.key == k) {
                law_fact_write_keeps_other_slots(before, after, w.entity, w.key, w.value, w.source, w.id, e, k);
            }
            assert forall|j: int| 0 <= j < ts[0].len() implies {
                &&& (#[trigger] after[j]).id == ts[0][j].id
                &&& after[j].entity == ts[0][j].entity
                &&& after[j].key == ts[0][j].key
                &&& after[j].value == ts[0][j].value
            } by {
                assert(before[j].id == ts[0][j].id);
                if reasserts_slot(before, w) {
                } else if active_in(before[j], w.entity, w.key) {
                } else {
                    assert(after[j] == before[j]);
                }
            }
        }
    }
}

/// The call `w` writes the value its slot already holds.
pub open spec fn reasserts_slot(t: Seq<Fact>, w: FactWrite) -> bool {
    active_fact(t, w.entity, w.key) is Some && active_fact(t, w.entity, w.key).unwrap().value@ == w.value
}

/// Once a slot is forgotten it has neither an active row nor any history.
pub proof fn law_forgotten_fact_is_gone(before: Seq<Fact>, e: Seq<char>, k: Seq<char>)
    ensures
        active_fact(before.filter(|f: Fact| !in_slot(f, e, k)), e, k) is None,
        slot_rows(before.filter(|f: Fact| !in_slot(f, e, k)), e, k).len() == 0,
{
    let after = before.filter(|f: Fact| !in_slot(f, e, k));
    assert forall|c: int| 0 <= c < after.len() implies !in_slot(#[trigger] after[c], e, k) by {
        before.lemma_filter_pred(|f: Fact| !in_slot(f, e, k), c);
    }
    assert(slot_rows(after, e, k) =~= Seq::<Fact>::empty()) by {
        let r = slot_rows(after, e, k);
        if r.len() > 0 {
            after.lemma_filter_pred(|f: Fact| in_slot(f, e, k), 0);
            assert(r.contains(r[0]));
            after.lemma_filter_contains_rev(|f: Fact| in_slot(f, e, k), r[0]);
        }
    }
}

/// A stored memory can be read back under the id answered: it has the
/// stored memory's topic and summary up to duplicate detection, and is
/// the stored memory itself when it duplicated nothing.
pub proof fn law_stored_memory_is_readable(before: Seq<Memory>, after: Seq<Memory>, h: Seq<String>, m: MemoryView, id: Seq<char>)
    requires
        store_effect(before, after, m, id),
        memories_wf(after, h),
    ensures
        memory_with_id(after, id) matches Some(v) && content_hash(v.topic@, v.summary@) == content_hash(m.topic@, m.summary@),
        (forall|k: int| 0 <= k < before.len() ==> content_hash((#[trigger] before[k]).topic@, before[k].summary@) != content_hash(m.topic@, m.summary@))
            ==> memory_with_id(after, id) == Some(m),
{
    let hm = content_hash(m.topic@, m.summary@);
    let r: int = if exists|k: int| 0 <= k < before.len() && content_hash((#[trigger] before[k]).topic@, before[k].summary@) == hm {
        choose|k: int| 0 <= k < before.len() && content_hash((#[trigger] before[k]).topic@, before[k].summary@) == hm
    } else {
        before.len() as int
    };
    assert(after[r].id@ == id);
    crate::memory::lemma_memory_with_id_at(after, h, r);
    assert(content_hash(after[r].topic@, after[r].summary@) == hm);
}

/// Storing a memory whose topic and summary duplicate one just stored
/// adds no row and answers the id of the first.
pub proof fn law_duplicate_store_merges(
    t0: Seq<Memory>,
    t1: Seq<Memory>,
    t2: Seq<Memory>,
    h1: Seq<String>,
    m1: MemoryView,
    m2: MemoryView,
    id1: Seq<char>,
    id2: Seq<char>,
)
    requires
        store_effect(t0, t1, m1, id1),
        memories_wf(t1, h1),
        content_hash(m2.topic@, m2.summary@) == content_hash(m1.topic@, m1.summary@),
        store_effect(t1, t2, m2, id2),
    ensures
        memory_with_id(t1, id1) is Some,
        t2.len() == t1.len(),
        id2 == id1,
{
    let hm = content_hash(m1.topic@, m1.summary@);
    let r: int = if exists|k: int| 0 <= k < t0.len() && content_hash((#[trigger] t0[k]).topic@, t0[k].summary@) == hm {
        choose|k: int| 0 <= k < t0.len() && content_hash((#[trigger] t0[k]).topic@, t0[k].summary@) == hm
    } else {
        t0.len() as int
    };
    assert(0 <= r < t1.len());
    assert(t1[r].id@ == id1);
    assert(content_hash(t1[r].topic@, t1[r].summary@) == hm);
    let k2 = choose|k: int| 0 <= k < t1.len() && content_hash((#[trigger] t1[k]).topic@, t1[k].summary@) == hm;
    assert(content_hash(t1[k2].topic@, t1[k2].summary@) == hm);
    if k2 != r {
        assert(h1[k2]@ != h1[r]@);
    }
}

/// Once a memory is deleted no row holds its id and no remaining row links
/// to it.
pub proof fn law_deleted_memory_is_gone(before: Seq<Memory>, h: Seq<String>, after: Seq<Memory>, k: int)
    requires
        memories_wf(before, h),
        deleted_row(before, after, k),
    ensures
        memory_with_id(after, before[k].id@) is None,
        forall|j: int, x: String| 0 <= j < after.len() && #[trigger] after[j]@.related_ids.contains(x) ==> x@ != before[k].id@,
{
    let id = before[k].id@;
    assert forall|j: int| 0 <= j < after.len() implies (#[trigger] after[j]).id@ != id by {
        let src = if j < k { j } else { j + 1 };
        assert(after[j]@.id == before[src]@.id);
    }
    assert forall|j: int, x: String| 0 <= j < after.len() && #[trigger] after[j]@.related_ids.contains(x) implies x@ != id by {
        let src = if j < k { j } else { j + 1 };
        let p = crate::maintain::not_link_to(id);
        let f = before[src]@.related_ids.filter(p);
        assert(after[j]@.related_ids == f);
        let w = choose|w: int| 0 <= w < f.len() && f[w] == x;
        before[src]@.related_ids.lemma_filter_pred(p, w);
    }
}

/// Making sure of a session twice is the same as once: the second call
/// changes nothing.
pub proof fn law_ensure_session_is_idempotent(
    t0: TranscriptTable,
    t1: TranscriptTable,
    t2: TranscriptTable,
    id: Seq<char>,
    agent1: Seq<char>,
    project1: Option<Seq<char>>,
    metadata1: Option<Seq<char>>,
    r1: crate::model::IcmResult<String>,
    agent2: Seq<char>,
    project2: Option<Seq<char>>,
    metadata2: Option<Seq<char>>,
    r2: crate::model::IcmResult<String>,
)
    requires
        ensure_session_effect(t0, t1, id, agent1, project1, metadata1, r1),
        ensure_session_effect(t1, t2, id, agent2, project2, metadata2, r2),
    ensures
        has_session(t1.sessions@, id),
        t2.sessions@ == t1.sessions@,
        t2.messages@ == t1.messages@,
{
    if !has_session(t0.sessions@, id) {
        let s = choose|s: crate::transcript::Session| {
            &&& t1.sessions@ == t0.sessions@.push(s)
            &&& s.id@ == id
            &&& s.agent@ == agent1
            &&& crate::transcript::opt_text(s.project) == project1
            &&& match metadata1 {
                Some(m) => crate::transcript::capped(Some(m), crate::transcript::MAX_METADATA_BYTES as nat, s.metadata),
                None => s.metadata matches Some(x) && x@ == "{}"@,
            }
        };
        assert(t1.sessions@[t0.sessions@.len() as int].id@ == id);
    } else {
        let k = choose|k: int| 0 <= k < t0.sessions@.len() && (#[trigger] t0.sessions@[k]).id@ == id;
        assert(t1.sessions@[k].id@ == id);
    }
}

/// Once a session is forgotten it cannot be found and none of the
/// remaining messages belongs to it.
pub proof fn law_forgotten_session_is_gone(before: TranscriptTable, after: TranscriptTable, id: Seq<char>, r: crate::model::IcmResult<()>)
    requires
        forget_session_effect(before, after, id, r),
    ensures
        session_with_id(after.sessions@, id) is None,
        forall|i: int| 0 <= i < after.messages@.len() ==> (#[trigger] after.messages@[i]).session_id@ != id,
{
    let ps = crate::transcript::other_session(id);
    let pm = crate::transcript::outside_session(id);
    assert forall|i: int| 0 <= i < after.sessions@.len() implies (#[trigger] after.sessions@[i]).id@ != id by {
        before.sessions@.lemma_filter_pred(ps, i);
    }
    assert forall|i: int| 0 <= i < after.messages@.len() implies (#[trigger] after.messages@[i]).session_id@ != id by {
        before.messages@.lemma_filter_pred(pm, i);
    }
}

/// A decay step never raises a weight.
proof fn lemma_decayed_weight_bounded(w: u32, i: Importance, access: u32, f: u32)
    requires
        f <= 1000,
    ensures
        0 <= decayed_weight(w, i, access, f) <= w,
{
    let a: int = if access < 5 { access as int } else { 5 };
    let den: int = 200 * (10 + a);
    let sub: int = (1000 - f) * decay_twice_mult(i);
    let keep: int = if den > sub { den - sub } else { 0 };
    let mult = decay_twice_mult(i);
    assert(0 <= (1000 - f) * mult) by (nonlinear_arith)
        requires
            0 <= 1000 - f,
            1 <= mult;
    assert(0 <= keep <= den);
    assert(0 <= w * keep <= w * den) by (nonlinear_arith)
        requires
            0 <= keep <= den,
            0 <= w;
    assert(0 <= (w * keep) / den <= w) by (nonlinear_arith)
        requires
            0 <= w * keep <= w * den,
            den > 0;
}

/// Decay at a factor of at most 1 never raises a weight, never goes below
/// zero, and leaves critical memories exactly as they were.
pub proof fn law_decay_never_raises(before: Seq<Memory>, after: Seq<Memory>, factor_permille: u32)
    requires
        factor_permille <= 1000,
        decayed_rows(before, after, factor_permille),
    ensures
        forall|j: int| 0 <= j < after.len() ==> (#[trigger] after[j])@.weight <= before[j]@.weight,
        forall|j: int| 0 <= j < after.len() && before[j].importance == Importance::Critical ==> (#[trigger] after[j])@ == before[j]@,
{
    assert forall|j: int| 0 <= j < after.len() implies (#[trigger] after[j])@.weight <= before[j]@.weight by {
        if before[j].importance != Importance::Critical {
            lemma_decayed_weight_bounded(before[j].weight, before[j].importance, before[j].access_count, factor_permille);
        }
    }
}

/// Pruning never removes a critical or high memory, nor one at or above
/// the threshold: each such memory is still there, unchanged.
pub proof fn law_prune_keeps_important(before: Seq<Memory>, after: Seq<Memory>, threshold: u32, j: int)
    requires
        mem_views(after) == mem_views(before.filter(survives(threshold))),
        0 <= j < before.len(),
        before[j].importance == Importance::Critical || before[j].importance == Importance::High || before[j].weight >= threshold,
    ensures
        exists|k: int| 0 <= k < after.len() && after[k]@ == before[j]@,
{
    let f = before.filter(survives(threshold));
    before.lemma_filter_contains(survives(threshold), j);
    let k = choose|k: int| 0 <= k < f.len() && f[k] == before[j];
    assert(mem_views(after).len() == after.len());
    assert(mem_views(f).len() == f.len());
    assert(k < after.len());
    assert(mem_views(after)[k] == after[k]@);
    assert(mem_views(f)[k] == f[k]@);
    assert(after[k]@ == before[j]@);
}

/// A message recorded in a session is listed among that session's
/// messages: a page from the start long enough for the whole table holds
/// it, as recorded.
pub proof fn law_recorded_message_is_listed(
    before: TranscriptTable,
    after: TranscriptTable,
    sid: Seq<char>,
    role: Role,
    content: Seq<char>,
    tool_name: Option<Seq<char>>,
    tokens: Option<i64>,
    metadata: Option<Seq<char>>,
    r: crate::model::IcmResult<String>,
    limit: nat,
    v: Seq<Message>,
)
    requires
        record_message_effect(before, after, sid, role, content, tool_name, tokens, metadata, r),
        r is Ok,
        message_page(after, sid, limit, 0, v),
        limit >= after.messages@.len(),
    ensures
        exists|k: int| 0 <= k < v.len() && (#[trigger] v[k]).id@ == r->Ok_0@ && v[k].session_id@ == sid && v[k].role == role
            && v[k].content@ == cut_to_bytes(content, MAX_MESSAGE_BYTES as nat),
{
    let id = r->Ok_0;
    let (m, kk) = choose|m: Message, k: int| {
        &&& after.messages@ == before.messages@.push(m)
        &&& m.id@ == id@
        &&& m.session_id@ == sid
        &&& m.role == role
        &&& m.content@ == cut_to_bytes(content, MAX_MESSAGE_BYTES as nat)
        &&& crate::transcript::capped(tool_name, crate::transcript::MAX_TOOL_NAME_BYTES as nat, m.tool_name)
        &&& m.tokens == tokens
        &&& crate::transcript::capped(metadata, crate::transcript::MAX_METADATA_BYTES as nat, m.metadata)
        &&& 0 <= k < before.sessions@.len()
        &&& before.sessions@[k].id@ == sid
        &&& after.sessions@ == before.sessions@.update(k, crate::transcript::Session { updated_at: m.ts, ..before.sessions@[k] })
    };
    let msgs = after.messages@;
    let f = msgs.filter(in_session(sid));
    assert(msgs[before.messages@.len() as int] == m);
    msgs.lemma_filter_contains(in_session(sid), before.messages@.len() as int);
    let all = choose|all: Seq<Message>| {
        &&& all.to_multiset() == f.to_multiset()
        &&& crate::order::sorted_by_text(all)
        &&& v == crate::transcript::first_n(if 0 <= all.len() { all.skip(0) } else { Seq::empty() }, limit)
    };
    vstd::seq_lib::to_multiset_contains(f, m);
    vstd::seq_lib::to_multiset_contains(all, m);
    assert(all.skip(0) =~= all);
    msgs.lemma_filter_len(in_session(sid));
    assert(all.len() == all.to_multiset().len());
    assert(f.len() == f.to_multiset().len());
    assert(v == all);
    let w = choose|w: int| 0 <= w < all.len() && all[w] == m;
    assert(v[w] == m);
}

/// The daily decay runs at most once a day on OpenSearch: of two claims
/// on the slot less than a day apart, the later one is not due once the
/// earlier one was.
pub proof fn law_decay_once_a_day(last: Option<i64>, t1: i64, t2: i64)
    requires
        t2 - t1 < DAY_MILLIS,
    ensures
        !(claim_due(last, t1) && claim_due(slot_after_claim(last, t1, true), t2)),
{
}

/// The daily decay runs at most once a day on PostgreSQL: of two claims
/// on the slot at most a day apart, the later one is not due once the
/// earlier one was.
pub proof fn law_decay_once_a_day_pg(last: Option<i64>, t1: i64, t2: i64)
    requires
        t2 - t1 <= DAY_MILLIS,
    ensures
        !(claim_due_pg(last, t1) && claim_due_pg(slot_after_claim(last, t1, true), t2)),
{
}

/// The decay of one weight at an importance speed `twice` (in halves):
/// `w * max(0, 1 - (1 - f) * twice / 2 / (1 + 0.1 * min(access, 5)))` with
/// `f = factor_permille / 1000`, rounded down, at most `u32::MAX`.
pub open spec fn decay_at_speed(w: u32, twice: int, access: u32, factor_permille: u32) -> int {
    let a: int = if access < 5 { access as int } else { 5 };
    let den: int = 2000 + 200 * a;
    let keep: int = den - twice * (1000 - factor_permille);
    let raw: int = if keep > 0 { (w * keep) / den } else { 0 };
    if raw <= u32::MAX { raw } else { u32::MAX as int }
}

/// A decay pass treats each importance at its own speed: a high memory
/// decays at half the speed of a medium one, a low memory at double that
/// speed, and a critical one not at all.
pub proof fn law_decay_speed_by_importance(before: Seq<Memory>, after: Seq<Memory>, factor_permille: u32, j: int)
    requires
        decayed_rows(before, after, factor_permille),
        0 <= j < before.len(),
    ensures
        before[j].importance == Importance::High ==> after[j].weight == decay_at_speed(before[j].weight, 1, before[j].access_count, factor_permille),
        before[j].importance == Importance::Medium ==> after[j].weight == decay_at_speed(before[j].weight, 2, before[j].access_count, factor_permille),
        before[j].importance == Importance::Low ==> after[j].weight == decay_at_speed(before[j].weight, 4, before[j].access_count, factor_permille),
        before[j].importance == Importance::Critical ==> after[j].weight == before[j].weight,
{
    let w = before[j].weight;
    let acc = before[j].access_count;
    let a: int = if acc < 5 { acc as int } else { 5 };
    let den: int = 2000 + 200 * a;
    assert(after[j]@ == after[j]@);
    if before[j].importance != Importance::Critical {
        let t = decay_twice_mult(before[j].importance);
        let keep: int = den - t * (1000 - factor_permille);
        assert((1000 - factor_permille) * t == t * (1000 - factor_permille)) by (nonlinear_arith);
        if keep > 0 {
            assert(0 <= (w * keep) / den) by (nonlinear_arith)
                requires keep > 0, w >= 0, den > 0;
        }
        assert(decayed_weight(w, before[j].importance, acc, factor_permille) == decay_at_speed(w, t, acc, factor_permille));
        assert(0 <= decay_at_speed(w, t, acc, factor_permille) <= u32::MAX);
    }
}

/// Under a decay factor of at most 1, of memories that weigh the same and
/// were read as often, a high one keeps at least as much weight as a
/// medium one, and a medium one at least as much as a low one.
pub proof fn law_decay_order_by_importance(w: u32, access: u32, factor_permille: u32)
    requires
        factor_permille <= 1000,
    ensures
        decay_at_speed(w, 1, access, factor_permille) >= decay_at_speed(w, 2, access, factor_permille),
        decay_at_speed(w, 2, access, factor_permille) >= decay_at_speed(w, 4, access, factor_permille),
        decay_at_speed(w, 1, access, factor_permille) <= w,
{
    let a: int = if access < 5 { access as int } else { 5 };
    let den: int = 2000 + 200 * a;
    let d: int = 1000 - factor_permille;
    let k1 = den - d;
    let k2 = den - 2 * d;
    let k4 = den - 4 * d;
    assert(k4 <= k2 <= k1 <= den);
    if k2 > 0 {
        assert((w * k2) / den <= (w * k1) / den) by (nonlinear_arith)
            requires 0 < k2 <= k1, w >= 0, den > 0;
        assert(0 <= (w * k2) / den) by (nonlinear_arith)
            requires 0 < k2, w >= 0, den > 0;
    }
    if k4 > 0 {
        assert((w * k4) / den <= (w * k2) / den) by (nonlinear_arith)
            requires 0 < k4 <= k2, w >= 0, den > 0;
        assert(0 <= (w * k4) / den) by (nonlinear_arith)
            requires 0 < k4, w >= 0, den > 0;
    }
    if k1 > 0 {
        assert((w * k1) / den <= w) by (nonlinear_arith)
            requires 0 < k1 <= den, w >= 0, den > 0;
        assert(0 <= (w * k1) / den) by (nonlinear_arith)
            requires 0 < k1, w >= 0, den > 0;
    }
}

/// A page of a session's messages is in time order: each message's
/// timestamp is at or before the next one's.
pub proof fn law_session_messages_in_time_order(t: TranscriptTable, sid: Seq<char>, limit: nat, offset: nat, v: Seq<Message>)
    requires
        message_page(t, sid, limit, offset, v),
    ensures
        forall|i: int, j: int| 0 <= i < j < v.len() ==> text_le((#[trigger] v[i]).ts@, (#[trigger] v[j]).ts@),
{
    let all = choose|all: Seq<Message>| {
        &&& all.to_multiset() == t.messages@.filter(in_session(sid)).to_multiset()
        &&& sorted_by_text(all)
        &&& v == first_n(if offset <= all.len() { all.skip(offset as int) } else { Seq::empty() }, limit)
    };
    assert forall|i: int, j: int| 0 <= i < j < v.len() implies text_le((#[trigger] v[i]).ts@, (#[trigger] v[j]).ts@) by {
        assert(offset <= all.len());
        assert(v[i] == all[offset + i] && v[j] == all[offset + j]);
        assert(text_le(all[offset + i].text_key(), all[offset + j].text_key()));
    }
}

/// The facts listed for an entity come in ascending order of their key.
pub proof fn law_facts_listed_by_key(v: Seq<Fact>)
    requires
        sorted_by_text(v),
    ensures
        forall|i: int, j: int| 0 <= i < j < v.len() ==> text_le((#[trigger] v[i]).key@, (#[trigger] v[j]).key@),
{
    assert forall|i: int, j: int| 0 <= i < j < v.len() implies text_le((#[trigger] v[i]).key@, (#[trigger] v[j]).key@) by {
        assert(text_le(v[i].text_key(), v[j].text_key()));
    }
}

/// Memoirs are listed in ascending order of their name.
pub proof fn law_memoirs_listed_by_name(v: Seq<Memoir>)
    requires
        sorted_by_text(v),
    ensures
        forall|i: int, j: int| 0 <= i < j < v.len() ==> text_le((#[trigger] v[i]).name@, (#[trigger] v[j]).name@),
{
    assert forall|i: int, j: int| 0 <= i < j < v.len() implies text_le((#[trigger] v[i]).name@, (#[trigger] v[j]).name@) by {
        assert(text_le(v[i].text_key(), v[j].text_key()));
    }
}

/// The concepts of a memoir are listed in ascending order of their name.
pub proof fn law_concepts_listed_by_name(v: Seq<Concept>)
    requires
        sorted_by_text(v),
    ensures
        forall|i: int, j: int| 0 <= i < j < v.len() ==> text_le((#[trigger] v[i]).name@, (#[trigger] v[j]).name@),
{
    assert forall|i: int, j: int| 0 <= i < j < v.len() implies text_le((#[trigger] v[i]).name@, (#[trigger] v[j]).name@) by {
        assert(text_le(v[i].text_key(), v[j].text_key()));
    }
}

/// Topics are listed in ascending order of their name.
pub proof fn law_topics_listed_by_name(v: Seq<(String, usize)>)
    requires
        sorted_by_text(v),
    ensures
        forall|i: int, j: int| 0 <= i < j < v.len() ==> text_le((#[trigger] v[i]).0@, (#[trigger] v[j]).0@),
{
    assert forall|i: int, j: int| 0 <= i < j < v.len() implies text_le((#[trigger] v[i]).0@, (#[trigger] v[j]).0@) by {
        assert(text_le(v[i].text_key(), v[j].text_key()));
    }
}

} // verus!
